//! What holds of the ingestion path as a whole.

use vstd::prelude::*;

use crate::declaration::{DeclarationModel, DeclarationRole, FieldModel, ReferenceModel, TypeModel, VariantModel, Visibility};
use crate::identity::{lookup_spec, AssignmentModel, BoundIdentities, DeclaredIdentityModel, IdentityIntent};
use crate::ingest::{declared_identities_spec, identities_from, ParsedEthos};
use crate::names::{distinct_spellings, lemma_intern, lemma_intern_grows, spec_intern, spec_resolve, Identifier, NameTableError};
use crate::restamp::{
    extends,
    lemma_extends_refl,
    lemma_extends_trans,
    lemma_grow_declaration,
    lemma_restamp_declaration_content,
    lemma_same_name_extend,
    lemma_same_type_extend,
    restamped_visibility,
    same_name,
    same_body,
    same_type,
    lemma_restamp_declaration_same,
    same_declaration,
    same_field,
    same_fields,
    same_reference,
    same_references,
    same_variant,
    same_variants,
};
use crate::shape::{
    declared_key_spec,
    declared_shape_spec,
    fold_fields_spec,
    fold_reference_spec,
    fold_references_spec,
    fold_variants_spec,
};
use crate::resolution::{
    body_resolves,
    declaration_resolves,
    lemma_declaration_identified,
    lemma_declaration_identity_error,
    lemma_declaration_restamp_error,
    lemma_declaration_restamps,
    names_entry,
    reports_unresolved,
};
use crate::sort::{ascending, lemma_lex_same, lemma_sort_by_local, lemma_sort_lex, lex_lt, sort_by_local_spec};
use crate::universe::{
    assign_from,
    assign_one_spec,
    assign_spec,
    build_spec,
    canonical_from,
    seat_builtins_spec,
    canonical_spec,
    highest_free,
    builtin_spelling,
    lemma_assign_from,
    lemma_order_resolvable,
    locals_of,
    member_spec,
    members_from,
    seat_spec,
    slot_of,
    spelling_of,
    BuiltinReference,
    KindModel,
    MemberModel,
    ScalarSlot,
    UniverseModel,
};

verus! {

/// The bind-or-mint key is the declared name and nothing else: two declarations whose
/// names resolve, each against its own name table, to one spelling get the same key,
/// whatever their roles, visibilities, bodies or raw identifiers.
pub proof fn law_key_by_name(n1: Seq<Seq<char>>, d1: DeclarationModel, n2: Seq<Seq<char>>, d2: DeclarationModel)
    requires
        same_name(n1, d1.value.identifier(), n2, d2.value.identifier()),
    ensures
        declared_key_spec(n1, d1) == declared_key_spec(n2, d2),
{
}

/// `assign_from` succeeds exactly when every declaration from `i` on gets a local.
proof fn lemma_assign_from_ok(names: Seq<Seq<char>>, decls: Seq<DeclarationModel>, bound: Seq<crate::identity::AssignmentModel>, i: int)
    requires
        0 <= i <= decls.len(),
    ensures
        assign_from(names, decls, bound, i) is Ok <==> forall|j: int|
            i <= j < decls.len() ==> #[trigger] assign_one_spec(names, decls[j], bound) is Ok,
    decreases decls.len() - i,
{
    if i < decls.len() {
        lemma_assign_from_ok(names, decls, bound, i + 1);
    }
}

/// Two sorted orders that pair up declarations of the same content at every position
/// give the same canonical names.
proof fn lemma_canonical_same(
    n1: Seq<Seq<char>>,
    d1: Seq<DeclarationModel>,
    o1: Seq<(u16, usize)>,
    n2: Seq<Seq<char>>,
    d2: Seq<DeclarationModel>,
    o2: Seq<(u16, usize)>,
    k: int,
    t: Seq<Seq<char>>,
)
    requires
        o1.len() == o2.len(),
        0 <= k <= o1.len(),
        forall|m: int|
            0 <= m < o1.len() ==> #[trigger] same_declaration(
                n1,
                d1[o1[m].1 as int],
                n2,
                d2[o2[m].1 as int],
            ),
    ensures
        canonical_from(n1, d1, o1, k, t) == canonical_from(n2, d2, o2, k, t),
    decreases o1.len() - k,
{
    if k < o1.len() {
        assert(same_declaration(n1, d1[o1[k].1 as int], n2, d2[o2[k].1 as int]));
        assert(spelling_of(n1, d1[o1[k].1 as int].value.identifier()) == spelling_of(
            n2,
            d2[o2[k].1 as int].value.identifier(),
        ));
        let s = spelling_of(n1, d1[o1[k].1 as int].value.identifier());
        lemma_canonical_same(n1, d1, o1, n2, d2, o2, k + 1, spec_intern(t, s).0);
    }
}

/// The same holds of the re-stamped members.
proof fn lemma_members_same(
    n1: Seq<Seq<char>>,
    d1: Seq<DeclarationModel>,
    o1: Seq<(u16, usize)>,
    n2: Seq<Seq<char>>,
    d2: Seq<DeclarationModel>,
    o2: Seq<(u16, usize)>,
    canonical: Seq<Identifier>,
    k: int,
    t: Seq<Seq<char>>,
)
    requires
        o1.len() == o2.len(),
        0 <= k <= o1.len(),
        forall|m: int| 0 <= m < o1.len() ==> (#[trigger] o1[m]).0 == o2[m].0,
        forall|m: int|
            0 <= m < o1.len() ==> #[trigger] same_declaration(
                n1,
                d1[o1[m].1 as int],
                n2,
                d2[o2[m].1 as int],
            ),
    ensures
        members_from(n1, d1, o1, canonical, k, t) == members_from(n2, d2, o2, canonical, k, t),
    decreases o1.len() - k,
{
    if k < o1.len() {
        assert(same_declaration(n1, d1[o1[k].1 as int], n2, d2[o2[k].1 as int]));
        assert(o1[k].0 == o2[k].0);
        lemma_restamp_declaration_same(
            n1,
            d1[o1[k].1 as int],
            n2,
            d2[o2[k].1 as int],
            t,
            canonical[k],
        );
        assert(member_spec(n1, d1, o1, canonical, k, t) == member_spec(n2, d2, o2, canonical, k, t));
        if let Ok((m, t1)) = member_spec(n1, d1, o1, canonical, k, t) {
            lemma_members_same(n1, d1, o1, n2, d2, o2, canonical, k + 1, t1);
        }
    }
}

/// The canonical universe assignment is a function of the declared content and the
/// authority's reply alone: two parsed units whose declarations have the same content
/// declaration by declaration, against any numbering of their name tables, build the same
/// assignment from the same reply. The pairing may reorder declarations freely, except that
/// declarations the authority gives one local keep their relative order (the stable sort
/// by local keeps parse order among them); the identity pairing, one parse order under two
/// numberings, is one such case.
pub proof fn law_build_independent_of_parse(
    p1: ParsedEthos,
    p2: ParsedEthos,
    bound: BoundIdentities,
    perm: Seq<int>,
)
    requires
        p1@.declarations.len() == p2@.declarations.len(),
        p1@.declarations.len() <= usize::MAX,
        perm.len() == p1@.declarations.len(),
        forall|i: int| 0 <= i < perm.len() ==> 0 <= #[trigger] perm[i] < perm.len(),
        forall|i: int, j: int| 0 <= i < perm.len() && 0 <= j < perm.len() && i != j ==> perm[i] != perm[j],
        forall|j: int| 0 <= j < perm.len() ==> #[trigger] perm.contains(j),
        forall|i: int|
            0 <= i < perm.len() ==> #[trigger] same_declaration(
                p1@.names,
                p1@.declarations[i],
                p2@.names,
                p2@.declarations[perm[i]],
            ),
        forall|i: int, j: int|
            #![trigger perm[i], perm[j]]
            0 <= i < j < perm.len() && assign_one_spec(p1@.names, p1@.declarations[i], bound@) is Ok
                && assign_one_spec(p1@.names, p1@.declarations[i], bound@) == assign_one_spec(
                p1@.names,
                p1@.declarations[j],
                bound@,
            ) ==> perm[i] < perm[j],
    ensures
        build_spec(p1@.names, p1@.declarations, bound@) is Ok <==> build_spec(
            p2@.names,
            p2@.declarations,
            bound@,
        ) is Ok,
        build_spec(p1@.names, p1@.declarations, bound@) is Ok ==> build_spec(
            p1@.names,
            p1@.declarations,
            bound@,
        ) == build_spec(p2@.names, p2@.declarations, bound@),
{
    let n1 = p1@.names;
    let n2 = p2@.names;
    let d1 = p1@.declarations;
    let d2 = p2@.declarations;
    let b = bound@;
    let n = d1.len();
    // The same content gets the same local.
    assert forall|i: int| 0 <= i < n implies #[trigger] assign_one_spec(n1, d1[i], b)
        == assign_one_spec(n2, d2[perm[i]], b) by {
        assert(same_declaration(n1, d1[i], n2, d2[perm[i]]));
        law_key_by_name(n1, d1[i], n2, d2[perm[i]]);
    }
    lemma_assign_from_ok(n1, d1, b, 0);
    lemma_assign_from_ok(n2, d2, b, 0);
    if assign_spec(n1, d1, b) is Ok {
        assert forall|j: int| 0 <= j < n implies #[trigger] assign_one_spec(n2, d2[j], b) is Ok by {
            assert(perm.contains(j));
            let i = choose|i: int| 0 <= i < n && #[trigger] perm[i] == j;
            assert(assign_one_spec(n1, d1[i], b) is Ok);
            assert(assign_one_spec(n1, d1[i], b) == assign_one_spec(n2, d2[perm[i]], b));
        }
        assert(assign_spec(n2, d2, b) is Ok);
        lemma_assign_from(n1, d1, b, 0);
        lemma_assign_from(n2, d2, b, 0);
        let s1 = assign_spec(n1, d1, b)->Ok_0;
        let s2 = assign_spec(n2, d2, b)->Ok_0;
        assert(forall|k: int| 0 <= k < n ==> (#[trigger] s1[k]).1 == k);
        assert(forall|k: int| 0 <= k < n ==> (#[trigger] s2[k]).1 == k);
        assert forall|i: int| 0 <= i < n implies s2[#[trigger] perm[i]].0 == s1[i].0 by {
            assert(assign_one_spec(n1, d1[0 + i], b) == Ok::<u16, crate::error::IngestErrorModel>(s1[i].0));
            assert(assign_one_spec(n2, d2[0 + perm[i]], b) == Ok::<u16, crate::error::IngestErrorModel>(s2[perm[i]].0));
        }
        lemma_sort_by_local(s1);
        lemma_sort_by_local(s2);
        lemma_sort_lex(s1);
        lemma_sort_lex(s2);
        let o1 = sort_by_local_spec(s1);
        let o2 = sort_by_local_spec(s2);
        // The first order, carried over by the pairing, is the second.
        let f = o1.map_values(|e: (u16, usize)| (e.0, perm[e.1 as int] as usize));
        assert forall|k: int| 0 <= k < n implies (#[trigger] o1[k]).1 < n && s1[o1[k].1 as int] == o1[k] by {
            assert(o1.contains(o1[k]));
            let a = choose|a: int| 0 <= a < s1.len() && s1[a] == o1[k];
        }
        assert forall|x: int, y: int| 0 <= x < y < f.len() implies lex_lt(f[x], f[y]) by {
            assert(lex_lt(o1[x], o1[y]));
            let i = o1[x].1 as int;
            let j = o1[y].1 as int;
            if o1[x].0 == o1[y].0 {
                assert(assign_one_spec(n1, d1[0 + i], b) == Ok::<u16, crate::error::IngestErrorModel>(s1[i].0));
                assert(assign_one_spec(n1, d1[0 + j], b) == Ok::<u16, crate::error::IngestErrorModel>(s1[j].0));
                assert(perm[i] < perm[j]);
            }
        }
        assert forall|e: (u16, usize)| #[trigger] f.contains(e) <==> o2.contains(e) by {
            if f.contains(e) {
                let k = choose|k: int| 0 <= k < f.len() && f[k] == e;
                let i = o1[k].1 as int;
                assert(s2[perm[i]] == e);
                assert(s2.contains(e));
            }
            if o2.contains(e) {
                assert(s2.contains(e));
                let c = choose|c: int| 0 <= c < s2.len() && s2[c] == e;
                assert(perm.contains(c));
                let a = choose|a: int| 0 <= a < n && #[trigger] perm[a] == c;
                assert(s1.contains(s1[a]));
                assert(o1.contains(s1[a]));
                let k = choose|k: int| 0 <= k < o1.len() && o1[k] == s1[a];
                assert(f[k] == e);
            }
        }
        lemma_lex_same(f, o2);
        // Each position pairs up declarations of the same content.
        assert forall|m: int| 0 <= m < o1.len() implies #[trigger] same_declaration(
            n1,
            d1[o1[m].1 as int],
            n2,
            d2[o2[m].1 as int],
        ) by {
            let a = o1[m].1 as int;
            assert(f[m] == o2[m]);
            assert(same_declaration(n1, d1[a], n2, d2[perm[a]]));
        }
        lemma_canonical_same(n1, d1, o1, n2, d2, o2, 0, Seq::empty());
        let c = canonical_from(n1, d1, o1, 0, Seq::empty());
        lemma_members_same(n1, d1, o1, n2, d2, o2, c.0, 0, c.1);
    } else {
        let j = choose|j: int| 0 <= j < n && !(#[trigger] assign_one_spec(n1, d1[j], b) is Ok);
        assert(assign_one_spec(n1, d1[j], b) == assign_one_spec(n2, d2[perm[j]], b));
        assert(!(assign_one_spec(n2, d2[perm[j]], b) is Ok));
    }
}

/// References with the same content fold alike.
proof fn lemma_fold_reference_same(n1: Seq<Seq<char>>, r1: ReferenceModel, n2: Seq<Seq<char>>, r2: ReferenceModel)
    requires
        same_reference(n1, r1, n2, r2),
    ensures
        fold_reference_spec(n1, r1) == fold_reference_spec(n2, r2),
    decreases r1,
{
    match r1 {
        ReferenceModel::SingleTypeApplication { projection: p1, argument: a1 } => {
            if let ReferenceModel::SingleTypeApplication { projection: p2, argument: a2 } = r2 {
                lemma_fold_reference_same(n1, *a1, n2, *a2);
            }
        },
        ReferenceModel::MultiTypeApplication { projection: p1, arguments: a1 } => {
            if let ReferenceModel::MultiTypeApplication { projection: p2, arguments: a2 } = r2 {
                lemma_fold_references_same(n1, a1, n2, a2);
            }
        },
        _ => {},
    }
}

proof fn lemma_fold_references_same(n1: Seq<Seq<char>>, s1: Seq<ReferenceModel>, n2: Seq<Seq<char>>, s2: Seq<ReferenceModel>)
    requires
        same_references(n1, s1, n2, s2),
    ensures
        fold_references_spec(n1, s1) == fold_references_spec(n2, s2),
    decreases s1,
{
    if s1.len() > 0 {
        lemma_fold_reference_same(n1, s1[0], n2, s2[0]);
        lemma_fold_references_same(n1, s1.drop_first(), n2, s2.drop_first());
    }
}

proof fn lemma_fold_fields_same(n1: Seq<Seq<char>>, s1: Seq<FieldModel>, n2: Seq<Seq<char>>, s2: Seq<FieldModel>)
    requires
        same_fields(n1, s1, n2, s2),
    ensures
        fold_fields_spec(n1, s1) == fold_fields_spec(n2, s2),
    decreases s1.len(),
{
    if s1.len() > 0 {
        assert(same_field(n1, s1[0], n2, s2[0]));
        lemma_fold_reference_same(n1, s1[0].reference, n2, s2[0].reference);
        assert forall|i: int| 0 <= i < s1.drop_first().len() implies #[trigger] same_field(
            n1,
            s1.drop_first()[i],
            n2,
            s2.drop_first()[i],
        ) by {
            assert(same_field(n1, s1[i + 1], n2, s2[i + 1]));
        }
        lemma_fold_fields_same(n1, s1.drop_first(), n2, s2.drop_first());
    }
}

proof fn lemma_fold_variants_same(n1: Seq<Seq<char>>, s1: Seq<VariantModel>, n2: Seq<Seq<char>>, s2: Seq<VariantModel>)
    requires
        same_variants(n1, s1, n2, s2),
    ensures
        fold_variants_spec(n1, s1) == fold_variants_spec(n2, s2),
    decreases s1.len(),
{
    if s1.len() > 0 {
        assert(same_variant(n1, s1[0], n2, s2[0]));
        if let Some(r1) = s1[0].payload {
            lemma_fold_reference_same(n1, r1, n2, s2[0].payload->Some_0);
        }
        assert forall|i: int| 0 <= i < s1.drop_first().len() implies #[trigger] same_variant(
            n1,
            s1.drop_first()[i],
            n2,
            s2.drop_first()[i],
        ) by {
            assert(same_variant(n1, s1[i + 1], n2, s2[i + 1]));
        }
        lemma_fold_variants_same(n1, s1.drop_first(), n2, s2.drop_first());
    }
}

/// A declaration's bind-or-mint key and structural fingerprint are functions of its declared
/// content: two declarations with the same content, each read against its own name table
/// however numbered, get the same key and the same fingerprint.
pub proof fn law_identity_by_content(n1: Seq<Seq<char>>, d1: DeclarationModel, n2: Seq<Seq<char>>, d2: DeclarationModel)
    requires
        same_declaration(n1, d1, n2, d2),
    ensures
        declared_key_spec(n1, d1) == declared_key_spec(n2, d2),
        declared_shape_spec(n1, d1) == declared_shape_spec(n2, d2),
{
    law_key_by_name(n1, d1, n2, d2);
    law_shape_by_body(n1, d1, n2, d2);
}

/// The structural fingerprint is a function of role, visibility and the body's structure
/// read through the spellings of its names: two declarations with equal role and
/// visibility and bodies of the same structure, each read against its own name table, get
/// the same fingerprint, whatever their own names, which need not even resolve.
pub proof fn law_shape_by_body(n1: Seq<Seq<char>>, d1: DeclarationModel, n2: Seq<Seq<char>>, d2: DeclarationModel)
    requires
        d1.role == d2.role,
        d1.visibility == d2.visibility,
        same_body(n1, d1.value, n2, d2.value),
    ensures
        declared_shape_spec(n1, d1) == declared_shape_spec(n2, d2),
{
    match d1.value {
        TypeModel::Newtype { reference: r1, .. } => {
            if let TypeModel::Newtype { reference: r2, .. } = d2.value {
                lemma_fold_reference_same(n1, r1, n2, r2);
            }
        },
        TypeModel::Struct { fields: f1, .. } => {
            if let TypeModel::Struct { fields: f2, .. } = d2.value {
                lemma_fold_fields_same(n1, f1, n2, f2);
            }
        },
        TypeModel::Enumeration { variants: v1, .. } => {
            if let TypeModel::Enumeration { variants: v2, .. } = d2.value {
                lemma_fold_variants_same(n1, v1, n2, v2);
            }
        },
    }
}

/// The declared name never enters the structural fingerprint: declaring the same body
/// under any other identifier, resolvable or not, leaves the fingerprint as it is.
pub proof fn law_shape_ignores_declared_name(names: Seq<Seq<char>>, d: DeclarationModel, identifier: Identifier)
    ensures
        declared_shape_spec(names, d) == declared_shape_spec(
            names,
            (DeclarationModel { value: d.value.with_identifier(identifier), ..d }),
        ),
{
}

/// The identity of one declaration, where its key and fingerprint resolve.
pub open spec fn identity_of(names: Seq<Seq<char>>, d: DeclarationModel) -> Option<DeclaredIdentityModel> {
    match declared_key_spec(names, d) {
        Ok(key) => match declared_shape_spec(names, d) {
            Ok(shape) => Some(DeclaredIdentityModel { key, shape, intent: IdentityIntent::MintOrBind }),
            Err(_) => None,
        },
        Err(_) => None,
    }
}

/// `identities_from` succeeds exactly when every declaration from `i` on has an identity,
/// and then holds those identities in order.
proof fn lemma_identities_from(names: Seq<Seq<char>>, decls: Seq<DeclarationModel>, i: int)
    requires
        0 <= i <= decls.len(),
    ensures
        identities_from(names, decls, i) is Ok <==> forall|j: int|
            i <= j < decls.len() ==> #[trigger] identity_of(names, decls[j]) is Some,
        identities_from(names, decls, i) is Ok ==> {
            &&& identities_from(names, decls, i)->Ok_0.len() == decls.len() - i
            &&& forall|k: int|
                0 <= k < decls.len() - i ==> identity_of(names, decls[i + k]) == Some(
                    #[trigger] identities_from(names, decls, i)->Ok_0[k],
                )
        },
    decreases decls.len() - i,
{
    if i < decls.len() {
        lemma_identities_from(names, decls, i + 1);
        if identities_from(names, decls, i) is Ok {
            let all = identities_from(names, decls, i)->Ok_0;
            let rest = identities_from(names, decls, i + 1)->Ok_0;
            assert(all == seq![identity_of(names, decls[i])->Some_0] + rest);
            assert forall|k: int| 0 <= k < decls.len() - i implies identity_of(names, decls[i + k]) == Some(
                #[trigger] all[k],
            ) by {
                if k > 0 {
                    assert(all[k] == rest[k - 1]);
                    assert(i + 1 + (k - 1) == i + k);
                }
            }
        }
    }
}

/// Where declarations paired by `perm` have equal identities (or lack one alike), the
/// identity sets are permuted alike.
proof fn lemma_identities_permuted(p1: ParsedEthos, p2: ParsedEthos, perm: Seq<int>)
    requires
        p1@.declarations.len() == p2@.declarations.len(),
        perm.len() == p1@.declarations.len(),
        forall|i: int| 0 <= i < perm.len() ==> 0 <= #[trigger] perm[i] < perm.len(),
        forall|j: int| 0 <= j < perm.len() ==> #[trigger] perm.contains(j),
        forall|i: int|
            0 <= i < perm.len() ==> #[trigger] identity_of(p1@.names, p1@.declarations[i]) == identity_of(
                p2@.names,
                p2@.declarations[perm[i]],
            ),
    ensures
        declared_identities_spec(p1@) is Ok <==> declared_identities_spec(p2@) is Ok,
        declared_identities_spec(p1@) is Ok ==> {
            &&& declared_identities_spec(p2@)->Ok_0.len() == perm.len()
            &&& forall|i: int|
                0 <= i < perm.len() ==> declared_identities_spec(p2@)->Ok_0[perm[i]]
                    == #[trigger] declared_identities_spec(p1@)->Ok_0[i]
        },
{
    let n1 = p1@.names;
    let n2 = p2@.names;
    let d1 = p1@.declarations;
    let d2 = p2@.declarations;
    let n = d1.len();
    lemma_identities_from(n1, d1, 0);
    lemma_identities_from(n2, d2, 0);
    if declared_identities_spec(p1@) is Ok {
        assert forall|j: int| 0 <= j < n implies #[trigger] identity_of(n2, d2[j]) is Some by {
            assert(perm.contains(j));
            let i = choose|i: int| 0 <= i < n && #[trigger] perm[i] == j;
            assert(identity_of(n1, d1[i]) is Some);
            assert(identity_of(n1, d1[i]) == identity_of(n2, d2[perm[i]]));
        }
        let ids1 = declared_identities_spec(p1@)->Ok_0;
        let ids2 = declared_identities_spec(p2@)->Ok_0;
        assert forall|i: int| 0 <= i < n implies ids2[perm[i]] == #[trigger] ids1[i] by {
            assert(identity_of(n1, d1[0 + i]) == Some(ids1[i]));
            assert(identity_of(n2, d2[0 + perm[i]]) == Some(ids2[perm[i]]));
        }
    } else {
        let j = choose|j: int| 0 <= j < n && !(#[trigger] identity_of(n1, d1[j]) is Some);
        assert(identity_of(n1, d1[j]) == identity_of(n2, d2[perm[j]]));
    }
}

/// The bind-or-mint declaration set does not depend on parse order or on how the name
/// table numbers its names: two parsed units whose declarations have the same content,
/// declaration by declaration under a permutation, present the same identities, permuted
/// alike; and one has an identity for every declaration exactly when the other does.
pub proof fn law_identities_independent_of_parse(p1: ParsedEthos, p2: ParsedEthos, perm: Seq<int>)
    requires
        p1@.declarations.len() == p2@.declarations.len(),
        perm.len() == p1@.declarations.len(),
        forall|i: int| 0 <= i < perm.len() ==> 0 <= #[trigger] perm[i] < perm.len(),
        forall|i: int, j: int| 0 <= i < perm.len() && 0 <= j < perm.len() && i != j ==> perm[i] != perm[j],
        forall|j: int| 0 <= j < perm.len() ==> #[trigger] perm.contains(j),
        forall|i: int|
            0 <= i < perm.len() ==> #[trigger] same_declaration(
                p1@.names,
                p1@.declarations[i],
                p2@.names,
                p2@.declarations[perm[i]],
            ),
    ensures
        declared_identities_spec(p1@) is Ok <==> declared_identities_spec(p2@) is Ok,
        declared_identities_spec(p1@) is Ok ==> {
            &&& declared_identities_spec(p2@)->Ok_0.len() == perm.len()
            &&& forall|i: int|
                0 <= i < perm.len() ==> declared_identities_spec(p2@)->Ok_0[perm[i]]
                    == #[trigger] declared_identities_spec(p1@)->Ok_0[i]
        },
{
    let n1 = p1@.names;
    let n2 = p2@.names;
    let d1 = p1@.declarations;
    let d2 = p2@.declarations;
    assert forall|i: int| 0 <= i < perm.len() implies #[trigger] identity_of(n1, d1[i]) == identity_of(
        n2,
        d2[perm[i]],
    ) by {
        assert(same_declaration(n1, d1[i], n2, d2[perm[i]]));
        law_identity_by_content(n1, d1[i], n2, d2[perm[i]]);
    }
    lemma_identities_permuted(p1, p2, perm);
}

/// One unit's declarations, parsed in another order against the same name table, present
/// the same identities in that other order: one entry per declaration, in the parse order
/// of the unit, and an identity for every declaration in one exactly when in the other.
/// Nothing is asked of the declarations; those whose names fail to resolve fail alike.
pub proof fn law_identities_follow_parse_order(p1: ParsedEthos, p2: ParsedEthos, perm: Seq<int>)
    requires
        p1@.names == p2@.names,
        p1@.declarations.len() == p2@.declarations.len(),
        perm.len() == p1@.declarations.len(),
        forall|i: int| 0 <= i < perm.len() ==> 0 <= #[trigger] perm[i] < perm.len(),
        forall|i: int, j: int| 0 <= i < perm.len() && 0 <= j < perm.len() && i != j ==> perm[i] != perm[j],
        forall|j: int| 0 <= j < perm.len() ==> #[trigger] perm.contains(j),
        forall|i: int| 0 <= i < perm.len() ==> p2@.declarations[#[trigger] perm[i]] == p1@.declarations[i],
    ensures
        declared_identities_spec(p1@) is Ok <==> declared_identities_spec(p2@) is Ok,
        declared_identities_spec(p1@) is Ok ==> {
            &&& declared_identities_spec(p2@)->Ok_0.len() == perm.len()
            &&& forall|i: int|
                0 <= i < perm.len() ==> declared_identities_spec(p2@)->Ok_0[perm[i]]
                    == #[trigger] declared_identities_spec(p1@)->Ok_0[i]
        },
{
    assert forall|i: int| 0 <= i < perm.len() implies #[trigger] identity_of(p1@.names, p1@.declarations[i])
        == identity_of(p2@.names, p2@.declarations[perm[i]]) by {
        assert(p2@.declarations[perm[i]] == p1@.declarations[i]);
    }
    lemma_identities_permuted(p1, p2, perm);
}

/// Where `members_from` succeeds, it makes one declaration member per entry of `order` from
/// `k` on, at that entry's local and under its canonical name.
proof fn lemma_members_from_layout(
    names: Seq<Seq<char>>,
    decls: Seq<DeclarationModel>,
    order: Seq<(u16, usize)>,
    canonical: Seq<Identifier>,
    k: int,
    t: Seq<Seq<char>>,
)
    requires
        0 <= k <= order.len(),
        members_from(names, decls, order, canonical, k, t) is Ok,
    ensures
        members_from(names, decls, order, canonical, k, t)->Ok_0.0.len() == order.len() - k,
        forall|j: int|
            0 <= j < order.len() - k ==> {
                let m = #[trigger] members_from(names, decls, order, canonical, k, t)->Ok_0.0[j];
                &&& m.local == order[k + j].0
                &&& m.identifier == canonical[k + j]
                &&& m.kind is Declaration
            },
    decreases order.len() - k,
{
    if k < order.len() {
        let (m, t1) = member_spec(names, decls, order, canonical, k, t)->Ok_0;
        lemma_members_from_layout(names, decls, order, canonical, k + 1, t1);
        let all = members_from(names, decls, order, canonical, k, t)->Ok_0.0;
        let rest = members_from(names, decls, order, canonical, k + 1, t1)->Ok_0.0;
        assert(all == seq![m] + rest);
        assert forall|j: int| 0 <= j < order.len() - k implies {
            let m = #[trigger] all[j];
            &&& m.local == order[k + j].0
            &&& m.identifier == canonical[k + j]
            &&& m.kind is Declaration
        } by {
            if j > 0 {
                assert(all[j] == rest[j - 1]);
                assert(k + 1 + (j - 1) == k + j);
            }
        }
    }
}

/// Where some local at most `c` is free and all above `c` are taken, there is a highest
/// free local.
proof fn lemma_highest_free_exists(occupied: Set<u16>, c: u16)
    requires
        forall|y: u16| y > c ==> occupied.contains(y),
        exists|x: u16| x <= c && !occupied.contains(x),
    ensures
        exists|x: u16| !occupied.contains(x) && forall|y: u16| !occupied.contains(y) ==> y <= x,
    decreases c,
{
    if !occupied.contains(c) {
        assert(forall|y: u16| !occupied.contains(y) ==> y <= c);
    } else {
        let x = choose|x: u16| x <= c && !occupied.contains(x);
        assert(x < c);
        lemma_highest_free_exists(occupied, (c - 1) as u16);
    }
}

/// The highest free local is free.
proof fn lemma_highest_free(occupied: Set<u16>)
    ensures
        highest_free(occupied) matches Some(l) ==> !occupied.contains(l),
        highest_free(occupied) matches Some(l) ==> forall|y: u16| y > l ==> occupied.contains(y),
{
    if exists|x: u16| !occupied.contains(x) {
        let x = choose|x: u16| !occupied.contains(x);
        assert(x <= 0xFFFF);
        lemma_highest_free_exists(occupied, 0xFFFF);
    }
}

/// The members of `ms` occupy their locals.
proof fn lemma_locals_of(ms: Seq<MemberModel>)
    ensures
        forall|i: int| 0 <= i < ms.len() ==> locals_of(ms).contains(#[trigger] ms[i].local),
{
}

/// Seating one prior appends one scalar member at a local that was free, and occupies it.
proof fn lemma_seat_one(occ: Set<u16>, ms: Seq<MemberModel>, t: Seq<Seq<char>>, b: BuiltinReference)
    requires
        forall|i: int| 0 <= i < ms.len() ==> occ.contains(#[trigger] ms[i].local),
        seat_spec(occ, ms, t, b) is Ok,
    ensures
        ({
            let (o2, ms2, t2) = seat_spec(occ, ms, t, b)->Ok_0;
            &&& ms2.len() == ms.len() + 1
            &&& ms2.subrange(0, ms.len() as int) == ms
            &&& ms2[ms.len() as int].kind == KindModel::ScalarPrimitive(slot_of(b))
            &&& !occ.contains(ms2[ms.len() as int].local)
            &&& forall|i: int| 0 <= i < ms2.len() ==> o2.contains(#[trigger] ms2[i].local)
        }),
{
    lemma_highest_free(occ);
    let (o2, ms2, t2) = seat_spec(occ, ms, t, b)->Ok_0;
    assert(ms2.subrange(0, ms.len() as int) =~= ms);
    assert forall|i: int| 0 <= i < ms2.len() implies o2.contains(#[trigger] ms2[i].local) by {
        if i < ms.len() {
            assert(ms2[i] == ms[i]);
        }
    }
}

/// Seating the priors appends four scalar members, at locals distinct from each other and
/// from every local that was occupied.
proof fn lemma_seat_builtins_layout(occ0: Set<u16>, ms: Seq<MemberModel>, t: Seq<Seq<char>>)
    requires
        forall|i: int| 0 <= i < ms.len() ==> occ0.contains(#[trigger] ms[i].local),
        seat_builtins_spec(occ0, ms, t) is Ok,
    ensures
        ({
            let all = seat_builtins_spec(occ0, ms, t)->Ok_0.1;
            let n = ms.len() as int;
            &&& all.len() == n + 4
            &&& all.subrange(0, n) == ms
            &&& all[n].kind == KindModel::ScalarPrimitive(ScalarSlot::Integer)
            &&& all[n + 1].kind == KindModel::ScalarPrimitive(ScalarSlot::Text)
            &&& all[n + 2].kind == KindModel::ScalarPrimitive(ScalarSlot::Boolean)
            &&& all[n + 3].kind == KindModel::ScalarPrimitive(ScalarSlot::Bytes)
            &&& forall|i: int, j: int|
                0 <= i < j < n + 4 && n <= j ==> (#[trigger] all[i]).local != (#[trigger] all[j]).local
        }),
{
    let n = ms.len() as int;
    lemma_seat_one(occ0, ms, t, BuiltinReference::Integer);
    let (occ1, ms1, t1) = seat_spec(occ0, ms, t, BuiltinReference::Integer)->Ok_0;
    lemma_seat_one(occ1, ms1, t1, BuiltinReference::String);
    let (occ2, ms2, t2) = seat_spec(occ1, ms1, t1, BuiltinReference::String)->Ok_0;
    lemma_seat_one(occ2, ms2, t2, BuiltinReference::Boolean);
    let (occ3, ms3, t3) = seat_spec(occ2, ms2, t2, BuiltinReference::Boolean)->Ok_0;
    lemma_seat_one(occ3, ms3, t3, BuiltinReference::Bytes);
    let (occ4, ms4, t4) = seat_spec(occ3, ms3, t3, BuiltinReference::Bytes)->Ok_0;
    assert(ms4 == seat_builtins_spec(occ0, ms, t)->Ok_0.1);
    assert(ms3.subrange(0, n + 2) == ms2);
    assert(ms4.subrange(0, n + 3) == ms3);
    assert(ms2.subrange(0, n + 1) == ms1);
    assert(ms1.subrange(0, n) == ms);
    assert(ms4.subrange(0, n) =~= ms) by {
        assert forall|i: int| 0 <= i < n implies ms4[i] == ms[i] by {
            assert(ms4[i] == ms3[i]);
            assert(ms3[i] == ms2[i]);
            assert(ms2[i] == ms1[i]);
            assert(ms1[i] == ms[i]);
        }
    }
    assert(ms4[n] == ms3[n] && ms3[n] == ms2[n] && ms2[n] == ms1[n]);
    assert(ms4[n + 1] == ms3[n + 1] && ms3[n + 1] == ms2[n + 1]);
    assert(ms4[n + 2] == ms3[n + 2]);
    assert forall|i: int, j: int| 0 <= i < j < n + 4 && n <= j implies (#[trigger] ms4[i]).local
        != (#[trigger] ms4[j]).local by {
        if j == n {
            assert(ms4[i] == ms[i]);
        } else if j == n + 1 {
            assert(ms4[i] == ms1[i]);
        } else if j == n + 2 {
            assert(ms4[i] == ms2[i]);
        } else {
            assert(ms4[i] == ms3[i]);
        }
    }
}

/// A built universe holds one member per declaration, in ascending order of local, followed
/// by the four scalar priors (integer, string, boolean, bytes, in that order) seated at
/// locals that are distinct from each other and from every declaration's.
pub proof fn law_universe_layout(p: ParsedEthos, bound: BoundIdentities)
    requires
        p@.declarations.len() <= usize::MAX,
        build_spec(p@.names, p@.declarations, bound@) is Ok,
    ensures
        ({
            let u = build_spec(p@.names, p@.declarations, bound@)->Ok_0;
            let n = p@.declarations.len() as int;
            &&& u.members.len() == n + 4
            &&& forall|i: int| 0 <= i < n ==> (#[trigger] u.members[i]).kind is Declaration
            &&& forall|i: int, j: int|
                0 <= i <= j < n ==> (#[trigger] u.members[i]).local <= (#[trigger] u.members[j]).local
            &&& u.members[n].kind == KindModel::ScalarPrimitive(ScalarSlot::Integer)
            &&& u.members[n + 1].kind == KindModel::ScalarPrimitive(ScalarSlot::Text)
            &&& u.members[n + 2].kind == KindModel::ScalarPrimitive(ScalarSlot::Boolean)
            &&& u.members[n + 3].kind == KindModel::ScalarPrimitive(ScalarSlot::Bytes)
            &&& forall|i: int, j: int|
                0 <= i < j < n + 4 && n <= j ==> (#[trigger] u.members[i]).local
                    != (#[trigger] u.members[j]).local
        }),
{
    let names = p@.names;
    let decls = p@.declarations;
    let b = bound@;
    let pairs = assign_spec(names, decls, b)->Ok_0;
    lemma_assign_from(names, decls, b, 0);
    lemma_sort_by_local(pairs);
    let order = sort_by_local_spec(pairs);
    let (canonical, t) = canonical_spec(names, decls, order);
    let (ms, t2) = members_from(names, decls, order, canonical, 0, t)->Ok_0;
    lemma_members_from_layout(names, decls, order, canonical, 0, t);
    lemma_locals_of(ms);
    lemma_seat_builtins_layout(locals_of(ms), ms, t2);
    let u = build_spec(names, decls, b)->Ok_0;
    let n = decls.len() as int;
    assert(u.members.subrange(0, n) == ms);
    assert forall|i: int| 0 <= i < n implies (#[trigger] u.members[i]).kind is Declaration by {
        assert(u.members.subrange(0, n)[i] == u.members[i]);
        assert(ms[0 + i] == ms[i]);
    }
    assert forall|i: int, j: int| 0 <= i <= j < n implies (#[trigger] u.members[i]).local <= (
    #[trigger] u.members[j]).local by {
        assert(u.members.subrange(0, n)[i] == u.members[i]);
        assert(u.members.subrange(0, n)[j] == u.members[j]);
        assert(ms[0 + i] == ms[i]);
        assert(ms[0 + j] == ms[j]);
        assert(ascending(order));
    }
}

proof fn lemma_canonical_grows(names: Seq<Seq<char>>, decls: Seq<DeclarationModel>, order: Seq<(u16, usize)>, k: int, t: Seq<Seq<char>>)
    ensures
        extends(t, canonical_from(names, decls, order, k, t).1),
    decreases order.len() - k,
{
    lemma_extends_refl(t);
    if k < order.len() {
        let s = spelling_of(names, decls[order[k].1 as int].value.identifier());
        let t1 = spec_intern(t, s).0;
        lemma_intern_grows(t, s);
        lemma_canonical_grows(names, decls, order, k + 1, t1);
        lemma_extends_trans(t, t1, canonical_from(names, decls, order, k + 1, t1).1);
    }
}

/// The canonical names resolve, in the table the canonical phase leaves, to the spellings of
/// the declarations they name.
proof fn lemma_canonical_content(names: Seq<Seq<char>>, decls: Seq<DeclarationModel>, order: Seq<(u16, usize)>, k: int, t: Seq<Seq<char>>)
    requires
        0 <= k <= order.len(),
        distinct_spellings(t),
        canonical_from(names, decls, order, k, t).1.len() <= usize::MAX,
    ensures
        ({
            let (ids, t2) = canonical_from(names, decls, order, k, t);
            &&& distinct_spellings(t2)
            &&& extends(t, t2)
            &&& ids.len() == order.len() - k
            &&& forall|j: int|
                0 <= j < order.len() - k ==> spec_resolve(t2, #[trigger] ids[j]) == Ok::<
                    Seq<char>,
                    NameTableError,
                >(spelling_of(names, decls[order[k + j].1 as int].value.identifier()))
        }),
    decreases order.len() - k,
{
    lemma_extends_refl(t);
    if k < order.len() {
        let s = spelling_of(names, decls[order[k].1 as int].value.identifier());
        let (t1, id) = spec_intern(t, s);
        let (ids, t2) = canonical_from(names, decls, order, k, t);
        let (rest, t3) = canonical_from(names, decls, order, k + 1, t1);
        assert(t2 == t3);
        lemma_canonical_grows(names, decls, order, k + 1, t1);
        lemma_intern(t, s);
        lemma_canonical_content(names, decls, order, k + 1, t1);
        lemma_extends_trans(t, t1, t2);
        assert forall|j: int| 0 <= j < order.len() - k implies spec_resolve(t2, #[trigger] ids[j])
            == Ok::<Seq<char>, NameTableError>(
            spelling_of(names, decls[order[k + j].1 as int].value.identifier()),
        ) by {
            if j == 0 {
                assert(ids[0] == id);
                assert(t2.subrange(0, t1.len() as int)[id.index as int] == t2[id.index as int]);
            } else {
                assert(ids[j] == rest[j - 1]);
                assert(k + 1 + (j - 1) == k + j);
            }
        }
    }
}

proof fn lemma_members_grows(names: Seq<Seq<char>>, decls: Seq<DeclarationModel>, order: Seq<(u16, usize)>, canonical: Seq<Identifier>, k: int, t: Seq<Seq<char>>)
    ensures
        members_from(names, decls, order, canonical, k, t) matches Ok((ms, d)) ==> extends(t, d),
    decreases order.len() - k,
{
    lemma_extends_refl(t);
    if k < order.len() {
        lemma_grow_declaration(names, t, decls[order[k].1 as int], canonical[k]);
        if let Ok((m, t1)) = member_spec(names, decls, order, canonical, k, t) {
            lemma_members_grows(names, decls, order, canonical, k + 1, t1);
            if let Ok((ms, d)) = members_from(names, decls, order, canonical, k + 1, t1) {
                lemma_extends_trans(t, t1, d);
            }
        }
    }
}

/// Each re-stamped member states the content of the declaration it was made from.
proof fn lemma_members_content(names: Seq<Seq<char>>, decls: Seq<DeclarationModel>, order: Seq<(u16, usize)>, canonical: Seq<Identifier>, k: int, t: Seq<Seq<char>>)
    requires
        0 <= k <= order.len(),
        distinct_spellings(t),
        members_from(names, decls, order, canonical, k, t) is Ok,
        members_from(names, decls, order, canonical, k, t)->Ok_0.1.len() <= usize::MAX,
        forall|j: int|
            k <= j < order.len() ==> #[trigger] same_name(
                names,
                decls[order[j].1 as int].value.identifier(),
                t,
                canonical[j],
            ),
    ensures
        ({
            let (ms, d) = members_from(names, decls, order, canonical, k, t)->Ok_0;
            &&& distinct_spellings(d)
            &&& extends(t, d)
            &&& forall|j: int|
                0 <= j < order.len() - k ==> {
                    let decl = decls[order[k + j].1 as int];
                    &&& (#[trigger] ms[j]).kind is Declaration
                    &&& ms[j].kind->Declaration_0.role == decl.role
                    &&& ms[j].kind->Declaration_0.visibility == restamped_visibility(decl)
                    &&& same_type(names, decl.value, d, ms[j].kind->Declaration_0.value)
                }
        }),
    decreases order.len() - k,
{
    lemma_extends_refl(t);
    if k < order.len() {
        let decl = decls[order[k].1 as int];
        let (m, t1) = member_spec(names, decls, order, canonical, k, t)->Ok_0;
        let (rest, d) = members_from(names, decls, order, canonical, k + 1, t1)->Ok_0;
        let ms = members_from(names, decls, order, canonical, k, t)->Ok_0.0;
        assert(ms == seq![m] + rest);
        lemma_members_from_layout(names, decls, order, canonical, k + 1, t1);
        lemma_members_grows(names, decls, order, canonical, k + 1, t1);
        assert(same_name(names, decl.value.identifier(), t, canonical[k]));
        lemma_restamp_declaration_content(names, t, decl, canonical[k]);
        assert forall|j: int| k + 1 <= j < order.len() implies #[trigger] same_name(
            names,
            decls[order[j].1 as int].value.identifier(),
            t1,
            canonical[j],
        ) by {
            assert(same_name(names, decls[order[j].1 as int].value.identifier(), t, canonical[j]));
            lemma_same_name_extend(names, decls[order[j].1 as int].value.identifier(), t, canonical[j], t1);
        }
        lemma_members_content(names, decls, order, canonical, k + 1, t1);
        lemma_extends_trans(t, t1, d);
        lemma_same_type_extend(names, decl.value, t1, m.kind->Declaration_0.value, d);
        assert forall|j: int| 0 <= j < order.len() - k implies {
            let decl = decls[order[k + j].1 as int];
            &&& (#[trigger] ms[j]).kind is Declaration
            &&& ms[j].kind->Declaration_0.role == decl.role
            &&& ms[j].kind->Declaration_0.visibility == restamped_visibility(decl)
            &&& same_type(names, decl.value, d, ms[j].kind->Declaration_0.value)
        } by {
            if j > 0 {
                assert(ms[j] == rest[j - 1]);
                assert(k + 1 + (j - 1) == k + j);
            }
        }
    }
}

/// `m`, read against `t`, states the content of `decl`, read against `names`: the same role,
/// the same body and name, and the declaration's own visibility where it is a data type,
/// public where it is an interface declaration.
pub open spec fn restates(names: Seq<Seq<char>>, decl: DeclarationModel, t: Seq<Seq<char>>, m: DeclarationModel) -> bool {
    &&& m.role == decl.role
    &&& (decl.role == DeclarationRole::DataType ==> m.visibility == decl.visibility)
    &&& (decl.role != DeclarationRole::DataType ==> m.visibility == Visibility::Public)
    &&& same_type(names, decl.value, t, m.value)
}

/// Seating the priors only appends to the name table.
proof fn lemma_seat_builtins_grows(occ: Set<u16>, ms: Seq<MemberModel>, t: Seq<Seq<char>>)
    requires
        seat_builtins_spec(occ, ms, t) is Ok,
    ensures
        extends(t, seat_builtins_spec(occ, ms, t)->Ok_0.2),
{
    let (o1, m1, t1) = seat_spec(occ, ms, t, BuiltinReference::Integer)->Ok_0;
    let (o2, m2, t2) = seat_spec(o1, m1, t1, BuiltinReference::String)->Ok_0;
    let (o3, m3, t3) = seat_spec(o2, m2, t2, BuiltinReference::Boolean)->Ok_0;
    let (o4, m4, t4) = seat_spec(o3, m3, t3, BuiltinReference::Bytes)->Ok_0;
    lemma_intern_grows(t, builtin_spelling(BuiltinReference::Integer));
    lemma_intern_grows(t1, builtin_spelling(BuiltinReference::String));
    lemma_intern_grows(t2, builtin_spelling(BuiltinReference::Boolean));
    lemma_intern_grows(t3, builtin_spelling(BuiltinReference::Bytes));
    lemma_extends_trans(t, t1, t2);
    lemma_extends_trans(t, t2, t3);
    lemma_extends_trans(t, t3, t4);
}

/// Seating the priors keeps the name table's spellings distinct.
proof fn lemma_seat_builtins_names(occ: Set<u16>, ms: Seq<MemberModel>, t: Seq<Seq<char>>)
    requires
        distinct_spellings(t),
        seat_builtins_spec(occ, ms, t) is Ok,
        seat_builtins_spec(occ, ms, t)->Ok_0.2.len() <= usize::MAX,
    ensures
        distinct_spellings(seat_builtins_spec(occ, ms, t)->Ok_0.2),
{
    let (o1, m1, t1) = seat_spec(occ, ms, t, BuiltinReference::Integer)->Ok_0;
    let (o2, m2, t2) = seat_spec(o1, m1, t1, BuiltinReference::String)->Ok_0;
    let (o3, m3, t3) = seat_spec(o2, m2, t2, BuiltinReference::Boolean)->Ok_0;
    let (o4, m4, t4) = seat_spec(o3, m3, t3, BuiltinReference::Bytes)->Ok_0;
    lemma_intern_grows(t3, builtin_spelling(BuiltinReference::Bytes));
    lemma_intern_grows(t2, builtin_spelling(BuiltinReference::Boolean));
    lemma_intern_grows(t1, builtin_spelling(BuiltinReference::String));
    lemma_intern(t, builtin_spelling(BuiltinReference::Integer));
    lemma_intern(t1, builtin_spelling(BuiltinReference::String));
    lemma_intern(t2, builtin_spelling(BuiltinReference::Boolean));
    lemma_intern(t3, builtin_spelling(BuiltinReference::Bytes));
}

/// The declaration members, before the priors are seated, restate the declarations in
/// sorted order.
proof fn lemma_members_restate(names: Seq<Seq<char>>, decls: Seq<DeclarationModel>, b: Seq<AssignmentModel>)
    requires
        decls.len() <= usize::MAX,
        assign_spec(names, decls, b) is Ok,
        ({
            let order = sort_by_local_spec(assign_spec(names, decls, b)->Ok_0);
            let (canonical, t) = canonical_spec(names, decls, order);
            &&& members_from(names, decls, order, canonical, 0, t) is Ok
            &&& members_from(names, decls, order, canonical, 0, t)->Ok_0.1.len() <= usize::MAX
        }),
    ensures
        ({
            let order = sort_by_local_spec(assign_spec(names, decls, b)->Ok_0);
            let (canonical, t) = canonical_spec(names, decls, order);
            let (ms, t2) = members_from(names, decls, order, canonical, 0, t)->Ok_0;
            &&& order.len() == decls.len()
            &&& ms.len() == decls.len()
            &&& distinct_spellings(t2)
            &&& forall|i: int|
                0 <= i < ms.len() ==> (#[trigger] ms[i]).kind is Declaration && 0 <= order[i].1
                    < decls.len() && restates(
                    names,
                    decls[order[i].1 as int],
                    t2,
                    ms[i].kind->Declaration_0,
                )
        }),
{
    let pairs = assign_spec(names, decls, b)->Ok_0;
    lemma_assign_from(names, decls, b, 0);
    lemma_sort_by_local(pairs);
    lemma_order_resolvable(names, decls, b);
    let order = sort_by_local_spec(pairs);
    let (canonical, t) = canonical_spec(names, decls, order);
    let (ms, t2) = members_from(names, decls, order, canonical, 0, t)->Ok_0;
    lemma_members_from_layout(names, decls, order, canonical, 0, t);
    lemma_members_grows(names, decls, order, canonical, 0, t);
    assert(distinct_spellings(Seq::<Seq<char>>::empty()));
    lemma_canonical_content(names, decls, order, 0, Seq::empty());
    assert forall|j: int| 0 <= j < order.len() implies #[trigger] same_name(
        names,
        decls[order[j].1 as int].value.identifier(),
        t,
        canonical[j],
    ) by {
        assert(canonical[j] == canonical[0 + j]);
        assert(order[0 + j] == order[j]);
    }
    lemma_members_content(names, decls, order, canonical, 0, t);
    assert forall|i: int| 0 <= i < ms.len() implies (#[trigger] ms[i]).kind is Declaration && 0
        <= order[i].1 < decls.len() && restates(
        names,
        decls[order[i].1 as int],
        t2,
        ms[i].kind->Declaration_0,
    ) by {
        assert(ms[0 + i] == ms[i]);
        assert(order[0 + i] == order[i]);
    }
}

/// Re-stamping keeps what every declaration says: each declaration member of a built
/// universe states, against the universe's name table, the content of one declaration of the
/// unit against the unit's table — the same role, the same body and name, and the
/// visibility a re-stamp gives (a data type keeps its own, an interface declaration is
/// public). The universe's table holds each spelling once.
pub proof fn law_universe_restates_declarations(p: ParsedEthos, bound: BoundIdentities)
    requires
        p@.declarations.len() <= usize::MAX,
        build_spec(p@.names, p@.declarations, bound@) is Ok,
        build_spec(p@.names, p@.declarations, bound@)->Ok_0.names.len() <= usize::MAX,
    ensures
        ({
            let u = build_spec(p@.names, p@.declarations, bound@)->Ok_0;
            let n = p@.declarations.len() as int;
            &&& distinct_spellings(u.names)
            &&& forall|i: int|
                0 <= i < n ==> (#[trigger] u.members[i]).kind is Declaration && exists|j: int|
                    0 <= j < n && #[trigger] restates(
                        p@.names,
                        p@.declarations[j],
                        u.names,
                        u.members[i].kind->Declaration_0,
                    )
        }),
{
    let names = p@.names;
    let decls = p@.declarations;
    let b = bound@;
    let n = decls.len() as int;
    let order = sort_by_local_spec(assign_spec(names, decls, b)->Ok_0);
    let (canonical, t) = canonical_spec(names, decls, order);
    let (ms, t2) = members_from(names, decls, order, canonical, 0, t)->Ok_0;
    let (occ, all, t3) = seat_builtins_spec(locals_of(ms), ms, t2)->Ok_0;
    let u = build_spec(names, decls, b)->Ok_0;
    assert(u.names == t3 && u.members == all);
    lemma_seat_builtins_grows(locals_of(ms), ms, t2);
    lemma_members_restate(names, decls, b);
    lemma_seat_builtins_names(locals_of(ms), ms, t2);
    lemma_locals_of(ms);
    lemma_seat_builtins_layout(locals_of(ms), ms, t2);
    assert forall|i: int| 0 <= i < n implies (#[trigger] u.members[i]).kind is Declaration && exists|j: int|
        0 <= j < n && #[trigger] restates(names, decls[j], u.names, u.members[i].kind->Declaration_0) by {
        assert(all.subrange(0, n)[i] == all[i]);
        assert(u.members[i] == ms[i]);
        let j = order[i].1 as int;
        let m = ms[i].kind->Declaration_0;
        lemma_same_type_extend(names, decls[j].value, t2, m.value, t3);
        assert(restates(names, decls[j], u.names, m));
    }
}

/// The keys that the declarations of `decls` present, where their names resolve.
pub open spec fn declared_keys(names: Seq<Seq<char>>, decls: Seq<DeclarationModel>) -> Set<Seq<u8>> {
    Set::new(
        |k: Seq<u8>|
            exists|i: int|
                0 <= i < decls.len() && #[trigger] declared_key_spec(names, decls[i]) == Ok::<
                    Seq<u8>,
                    NameTableError,
                >(k),
    )
}

/// The assignments of `bound` whose keys are in `keys`, in the order the authority gave them.
pub open spec fn bound_to(bound: Seq<AssignmentModel>, keys: Set<Seq<u8>>) -> Seq<AssignmentModel>
    decreases bound.len(),
{
    if bound.len() == 0 {
        Seq::empty()
    } else if keys.contains(bound[0].key) {
        seq![bound[0]] + bound_to(bound.drop_first(), keys)
    } else {
        bound_to(bound.drop_first(), keys)
    }
}

/// Looking a key of `keys` up sees only the assignments to keys of `keys`.
proof fn lemma_lookup_bound_to(bound: Seq<AssignmentModel>, keys: Set<Seq<u8>>, key: Seq<u8>)
    requires
        keys.contains(key),
    ensures
        lookup_spec(bound, key) == lookup_spec(bound_to(bound, keys), key),
    decreases bound.len(),
{
    if bound.len() > 0 {
        lemma_lookup_bound_to(bound.drop_first(), keys, key);
        if keys.contains(bound[0].key) {
            let r = bound_to(bound, keys);
            assert(r[0] == bound[0]);
            assert(r.drop_first() =~= bound_to(bound.drop_first(), keys));
        }
    }
}

/// Declarations that get the same local from two replies are assigned alike.
proof fn lemma_assign_from_alike(
    names: Seq<Seq<char>>,
    decls: Seq<DeclarationModel>,
    b1: Seq<AssignmentModel>,
    b2: Seq<AssignmentModel>,
    i: int,
)
    requires
        0 <= i,
        forall|j: int| 0 <= j < decls.len() ==> #[trigger] assign_one_spec(names, decls[j], b1)
            == assign_one_spec(names, decls[j], b2),
    ensures
        assign_from(names, decls, b1, i) == assign_from(names, decls, b2, i),
    decreases decls.len() - i,
{
    if i < decls.len() {
        lemma_assign_from_alike(names, decls, b1, b2, i + 1);
        assert(assign_one_spec(names, decls[i], b1) == assign_one_spec(names, decls[i], b2));
    }
}

/// The authority's assignments to keys that the unit does not declare are ignored: two
/// replies that agree on the assignments to the unit's declared keys, in their order, build
/// the same universe assignment, or fail alike; whatever else either holds (other keys, any
/// identities, anywhere in the reply) never becomes a member.
pub proof fn law_undeclared_keys_ignored(p: ParsedEthos, bound1: BoundIdentities, bound2: BoundIdentities)
    requires
        bound_to(bound1@, declared_keys(p@.names, p@.declarations)) == bound_to(
            bound2@,
            declared_keys(p@.names, p@.declarations),
        ),
    ensures
        build_spec(p@.names, p@.declarations, bound1@) == build_spec(p@.names, p@.declarations, bound2@),
{
    let names = p@.names;
    let decls = p@.declarations;
    let keys = declared_keys(names, decls);
    assert forall|j: int| 0 <= j < decls.len() implies #[trigger] assign_one_spec(names, decls[j], bound1@)
        == assign_one_spec(names, decls[j], bound2@) by {
        if let Ok(k) = declared_key_spec(names, decls[j]) {
            assert(keys.contains(k));
            lemma_lookup_bound_to(bound1@, keys, k);
            lemma_lookup_bound_to(bound2@, keys, k);
        }
    }
    lemma_assign_from_alike(names, decls, bound1@, bound2@, 0);
}

/// A spelling that resolves in `t` resolves alike in every table that extends `t`.
proof fn lemma_resolve_extend(t: Seq<Seq<char>>, u: Seq<Seq<char>>, id: Identifier, s: Seq<char>)
    requires
        extends(t, u),
        spec_resolve(t, id) == Ok::<Seq<char>, NameTableError>(s),
    ensures
        spec_resolve(u, id) == Ok::<Seq<char>, NameTableError>(s),
{
    assert(u.subrange(0, t.len() as int)[id.index as int] == u[id.index as int]);
}

/// Seating the priors names each by its spelling: the identifier each prior member carries
/// resolves, in the table the seating leaves, to "integer", "string", "boolean" and "bytes"
/// in turn.
proof fn lemma_seat_builtins_named(occ: Set<u16>, ms: Seq<MemberModel>, t: Seq<Seq<char>>)
    requires
        distinct_spellings(t),
        seat_builtins_spec(occ, ms, t) is Ok,
        seat_builtins_spec(occ, ms, t)->Ok_0.2.len() <= usize::MAX,
    ensures
        ({
            let (_, all, t4) = seat_builtins_spec(occ, ms, t)->Ok_0;
            let n = ms.len() as int;
            &&& spec_resolve(t4, all[n].identifier) == Ok::<Seq<char>, NameTableError>("integer"@)
            &&& spec_resolve(t4, all[n + 1].identifier) == Ok::<Seq<char>, NameTableError>("string"@)
            &&& spec_resolve(t4, all[n + 2].identifier) == Ok::<Seq<char>, NameTableError>("boolean"@)
            &&& spec_resolve(t4, all[n + 3].identifier) == Ok::<Seq<char>, NameTableError>("bytes"@)
        }),
{
    let n = ms.len() as int;
    let (o1, m1, t1) = seat_spec(occ, ms, t, BuiltinReference::Integer)->Ok_0;
    let (o2, m2, t2) = seat_spec(o1, m1, t1, BuiltinReference::String)->Ok_0;
    let (o3, m3, t3) = seat_spec(o2, m2, t2, BuiltinReference::Boolean)->Ok_0;
    let (o4, m4, t4) = seat_spec(o3, m3, t3, BuiltinReference::Bytes)->Ok_0;
    assert(m4 == seat_builtins_spec(occ, ms, t)->Ok_0.1);
    assert(t4 == seat_builtins_spec(occ, ms, t)->Ok_0.2);
    lemma_intern_grows(t3, builtin_spelling(BuiltinReference::Bytes));
    lemma_intern_grows(t2, builtin_spelling(BuiltinReference::Boolean));
    lemma_intern_grows(t1, builtin_spelling(BuiltinReference::String));
    lemma_intern(t, builtin_spelling(BuiltinReference::Integer));
    lemma_intern(t1, builtin_spelling(BuiltinReference::String));
    lemma_intern(t2, builtin_spelling(BuiltinReference::Boolean));
    lemma_intern(t3, builtin_spelling(BuiltinReference::Bytes));
    lemma_extends_trans(t1, t2, t3);
    lemma_extends_trans(t1, t3, t4);
    lemma_extends_trans(t2, t3, t4);
    assert(m4[n] == m1[n]);
    assert(m4[n + 1] == m2[n + 1]);
    assert(m4[n + 2] == m3[n + 2]);
    lemma_resolve_extend(t1, t4, m1[n].identifier, "integer"@);
    lemma_resolve_extend(t2, t4, m2[n + 1].identifier, "string"@);
    lemma_resolve_extend(t3, t4, m3[n + 2].identifier, "boolean"@);
}

/// Each scalar prior of a built universe is named by its spelling: the identifier of the
/// integer, string, boolean and bytes prior members resolves, in the universe's name table,
/// to "integer", "string", "boolean" and "bytes".
pub proof fn law_priors_named_by_spelling(p: ParsedEthos, bound: BoundIdentities)
    requires
        p@.declarations.len() <= usize::MAX,
        build_spec(p@.names, p@.declarations, bound@) is Ok,
        build_spec(p@.names, p@.declarations, bound@)->Ok_0.names.len() <= usize::MAX,
    ensures
        ({
            let u = build_spec(p@.names, p@.declarations, bound@)->Ok_0;
            let n = p@.declarations.len() as int;
            &&& u.members.len() == n + 4
            &&& u.members[n].kind == KindModel::ScalarPrimitive(ScalarSlot::Integer)
            &&& spec_resolve(u.names, u.members[n].identifier) == Ok::<Seq<char>, NameTableError>("integer"@)
            &&& u.members[n + 1].kind == KindModel::ScalarPrimitive(ScalarSlot::Text)
            &&& spec_resolve(u.names, u.members[n + 1].identifier) == Ok::<Seq<char>, NameTableError>("string"@)
            &&& u.members[n + 2].kind == KindModel::ScalarPrimitive(ScalarSlot::Boolean)
            &&& spec_resolve(u.names, u.members[n + 2].identifier) == Ok::<Seq<char>, NameTableError>("boolean"@)
            &&& u.members[n + 3].kind == KindModel::ScalarPrimitive(ScalarSlot::Bytes)
            &&& spec_resolve(u.names, u.members[n + 3].identifier) == Ok::<Seq<char>, NameTableError>("bytes"@)
        }),
{
    let names = p@.names;
    let decls = p@.declarations;
    let b = bound@;
    let order = sort_by_local_spec(assign_spec(names, decls, b)->Ok_0);
    let (canonical, t) = canonical_spec(names, decls, order);
    let (ms, t2) = members_from(names, decls, order, canonical, 0, t)->Ok_0;
    lemma_seat_builtins_grows(locals_of(ms), ms, t2);
    lemma_members_restate(names, decls, b);
    lemma_locals_of(ms);
    lemma_seat_builtins_layout(locals_of(ms), ms, t2);
    lemma_seat_builtins_named(locals_of(ms), ms, t2);
}

/// A unit whose declarations' identifiers all resolve presents an identity for every
/// declaration: the bind-or-mint set succeeds, with one entry per declaration, each keyed by
/// the bytes of its declaration's own name.
pub proof fn law_identities_when_names_resolve(p: ParsedEthos)
    requires
        forall|j: int| 0 <= j < p@.declarations.len() ==> #[trigger] declaration_resolves(
            p@.names,
            p@.declarations[j],
        ),
    ensures
        declared_identities_spec(p@) is Ok,
        declared_identities_spec(p@)->Ok_0.len() == p@.declarations.len(),
        forall|k: int|
            0 <= k < p@.declarations.len() ==> (#[trigger] declared_identities_spec(p@)->Ok_0[k]).key
                == crate::shape::spelling_bytes(p@.names[p@.declarations[k].value.identifier().index as int]),
{
    let names = p@.names;
    let decls = p@.declarations;
    assert forall|j: int| 0 <= j < decls.len() implies #[trigger] identity_of(names, decls[j]) is Some by {
        assert(declaration_resolves(names, decls[j]));
        lemma_declaration_identified(names, decls[j]);
    }
    lemma_identities_from(names, decls, 0);
    let ids = declared_identities_spec(p@)->Ok_0;
    assert forall|k: int| 0 <= k < decls.len() implies (#[trigger] ids[k]).key == crate::shape::spelling_bytes(
        names[decls[k].value.identifier().index as int],
    ) by {
        assert(identity_of(names, decls[0 + k]) == Some(ids[k]));
        assert(declaration_resolves(names, decls[k]));
    }
}

/// The bytes of the spelling that `d`'s own name has in `names`.
pub open spec fn name_bytes(names: Seq<Seq<char>>, d: DeclarationModel) -> Seq<u8> {
    crate::shape::spelling_bytes(names[d.value.identifier().index as int])
}

/// The locals that `bound` gives the names of `decls`.
pub open spec fn bound_locals(names: Seq<Seq<char>>, decls: Seq<DeclarationModel>, bound: Seq<AssignmentModel>) -> Set<u16> {
    Set::new(
        |l: u16|
            exists|j: int|
                0 <= j < decls.len() && #[trigger] lookup_spec(bound, name_bytes(names, decls[j])) == Some(
                    l as u32,
                ),
    )
}

/// Where every order position holds a declaration whose body resolves, the members build.
proof fn lemma_members_build(
    names: Seq<Seq<char>>,
    decls: Seq<DeclarationModel>,
    order: Seq<(u16, usize)>,
    canonical: Seq<Identifier>,
    k: int,
    dst: Seq<Seq<char>>,
)
    requires
        0 <= k,
        forall|i: int| 0 <= i < order.len() ==> (#[trigger] order[i]).1 < decls.len() && body_resolves(
            names,
            decls[order[i].1 as int].value,
        ),
    ensures
        members_from(names, decls, order, canonical, k, dst) is Ok,
    decreases order.len() - k,
{
    if k < order.len() {
        assert(order[k].1 < decls.len());
        lemma_declaration_restamps(names, dst, decls[order[k].1 as int], canonical[k]);
        let d1 = member_spec(names, decls, order, canonical, k, dst)->Ok_0.1;
        lemma_members_build(names, decls, order, canonical, k + 1, d1);
    }
}

/// A prior is seated wherever a local is free; it occupies one more local.
proof fn lemma_seat_step(occ: Set<u16>, ms: Seq<MemberModel>, t: Seq<Seq<char>>, b: BuiltinReference, x: u16)
    requires
        !occ.contains(x),
    ensures
        seat_spec(occ, ms, t, b) is Ok,
        exists|l: u16| seat_spec(occ, ms, t, b)->Ok_0.0 == occ.insert(l),
{
    assert(exists|y: u16| !occ.contains(y));
    let l = highest_free(occ)->Some_0;
    assert(seat_spec(occ, ms, t, b)->Ok_0.0 == occ.insert(l));
}

/// Four distinct locals outside `occ` leave room for the four priors.
proof fn lemma_seat_builtins_room(occ: Set<u16>, ms: Seq<MemberModel>, t: Seq<Seq<char>>, a: u16, b: u16, c: u16, d: u16)
    requires
        a != b && a != c && a != d && b != c && b != d && c != d,
        !occ.contains(a) && !occ.contains(b) && !occ.contains(c) && !occ.contains(d),
    ensures
        seat_builtins_spec(occ, ms, t) is Ok,
{
    lemma_seat_step(occ, ms, t, BuiltinReference::Integer, a);
    let s1 = seat_spec(occ, ms, t, BuiltinReference::Integer)->Ok_0;
    let l1 = choose|l: u16| s1.0 == occ.insert(l);
    let x2 = if l1 != a { a } else { b };
    lemma_seat_step(s1.0, s1.1, s1.2, BuiltinReference::String, x2);
    let s2 = seat_spec(s1.0, s1.1, s1.2, BuiltinReference::String)->Ok_0;
    let l2 = choose|l: u16| s2.0 == s1.0.insert(l);
    let x3 = if l1 != a && l2 != a { a } else if l1 != b && l2 != b { b } else { c };
    lemma_seat_step(s2.0, s2.1, s2.2, BuiltinReference::Boolean, x3);
    let s3 = seat_spec(s2.0, s2.1, s2.2, BuiltinReference::Boolean)->Ok_0;
    let l3 = choose|l: u16| s3.0 == s2.0.insert(l);
    let x4 = if l1 != a && l2 != a && l3 != a {
        a
    } else if l1 != b && l2 != b && l3 != b {
        b
    } else if l1 != c && l2 != c && l3 != c {
        c
    } else {
        d
    };
    lemma_seat_step(s3.0, s3.1, s3.2, BuiltinReference::Bytes, x4);
}

/// Building the universe assignment succeeds whenever nothing it is documented to fail on
/// occurs: every identifier of every declaration resolves, the authority binds every
/// declaration's name to an identity of at most 0xFFFF, and at least four locals are left
/// that no declaration is given, for the priors.
pub proof fn law_build_succeeds(p: ParsedEthos, bound: BoundIdentities)
    requires
        p@.declarations.len() <= usize::MAX,
        forall|j: int| 0 <= j < p@.declarations.len() ==> #[trigger] declaration_resolves(
            p@.names,
            p@.declarations[j],
        ),
        forall|j: int|
            0 <= j < p@.declarations.len() ==> ((#[trigger] lookup_spec(
                bound@,
                name_bytes(p@.names, p@.declarations[j]),
            )) matches Some(x) && x <= 0xFFFF),
        exists|a: u16, b: u16, c: u16, d: u16|
            a != b && a != c && a != d && b != c && b != d && c != d && !bound_locals(
                p@.names,
                p@.declarations,
                bound@,
            ).contains(a) && !bound_locals(p@.names, p@.declarations, bound@).contains(b) && !bound_locals(
                p@.names,
                p@.declarations,
                bound@,
            ).contains(c) && !bound_locals(p@.names, p@.declarations, bound@).contains(d),
    ensures
        build_spec(p@.names, p@.declarations, bound@) is Ok,
{
    let names = p@.names;
    let decls = p@.declarations;
    let bd = bound@;
    let free = bound_locals(names, decls, bd);
    assert forall|j: int| 0 <= j < decls.len() implies #[trigger] assign_one_spec(names, decls[j], bd)
        == Ok::<u16, crate::error::IngestErrorModel>(
        (lookup_spec(bd, name_bytes(names, decls[j]))->Some_0) as u16,
    ) by {
        assert(declaration_resolves(names, decls[j]));
        assert(lookup_spec(bd, name_bytes(names, decls[j])) matches Some(x) && x <= 0xFFFF);
        let x = lookup_spec(bd, name_bytes(names, decls[j]))->Some_0;
        assert(declared_key_spec(names, decls[j]) == Ok::<Seq<u8>, NameTableError>(name_bytes(names, decls[j])));
    }
    lemma_assign_from_ok(names, decls, bd, 0);
    let pairs = assign_spec(names, decls, bd)->Ok_0;
    lemma_assign_from(names, decls, bd, 0);
    lemma_sort_by_local(pairs);
    lemma_order_resolvable(names, decls, bd);
    let order = sort_by_local_spec(pairs);
    let (canonical, t) = canonical_spec(names, decls, order);
    assert forall|i: int| 0 <= i < order.len() implies (#[trigger] order[i]).1 < decls.len() && body_resolves(
        names,
        decls[order[i].1 as int].value,
    ) by {
        assert(order[i].1 < decls.len());
        assert(declaration_resolves(names, decls[order[i].1 as int]));
    }
    lemma_members_build(names, decls, order, canonical, 0, t);
    let (ms, t2) = members_from(names, decls, order, canonical, 0, t)->Ok_0;
    lemma_members_from_layout(names, decls, order, canonical, 0, t);
    assert forall|l: u16| locals_of(ms).contains(l) implies free.contains(l) by {
        let i = choose|i: int| 0 <= i < ms.len() && #[trigger] ms[i].local == l;
        assert(ms[0 + i].local == order[0 + i].0);
        assert(order.contains(order[i]));
        assert(pairs.contains(order[i]));
        let k = choose|k: int| 0 <= k < pairs.len() && pairs[k] == order[i];
        assert(pairs[0 + k] == pairs[k]);
        assert(assign_one_spec(names, decls[k], bd) == Ok::<u16, crate::error::IngestErrorModel>(l));
        let x = lookup_spec(bd, name_bytes(names, decls[k]))->Some_0;
        assert(x <= 0xFFFF);
        assert(x == l as u32);
    }
    let (a, b, c, d) = choose|a: u16, b: u16, c: u16, d: u16|
        a != b && a != c && a != d && b != c && b != d && c != d && !free.contains(a) && !free.contains(b)
            && !free.contains(c) && !free.contains(d);
    lemma_seat_builtins_room(locals_of(ms), ms, t2, a, b, c, d);
}

/// The locals of `ms` with one more member are those of `ms` and that member's.
proof fn lemma_locals_push(ms: Seq<MemberModel>, m: MemberModel)
    ensures
        locals_of(ms.push(m)) == locals_of(ms).insert(m.local),
{
    assert forall|l: u16| locals_of(ms.push(m)).contains(l) <==> locals_of(ms).insert(m.local).contains(l) by {
        if locals_of(ms.push(m)).contains(l) {
            let i = choose|i: int| 0 <= i < ms.push(m).len() && #[trigger] ms.push(m)[i].local == l;
            if i < ms.len() {
                assert(ms[i].local == l);
            }
        }
        if locals_of(ms).contains(l) {
            let i = choose|i: int| 0 <= i < ms.len() && #[trigger] ms[i].local == l;
            assert(ms.push(m)[i].local == l);
        }
        if l == m.local {
            assert(ms.push(m)[ms.len() as int].local == l);
        }
    }
    assert(locals_of(ms.push(m)) =~= locals_of(ms).insert(m.local));
}

/// Seating a prior where the occupied locals are exactly those of the members seats it at
/// the highest free local, and keeps the occupied locals those of the members.
proof fn lemma_seat_highest(occ: Set<u16>, ms: Seq<MemberModel>, t: Seq<Seq<char>>, b: BuiltinReference)
    requires
        occ == locals_of(ms),
        seat_spec(occ, ms, t, b) is Ok,
    ensures
        ({
            let (o2, ms2, t2) = seat_spec(occ, ms, t, b)->Ok_0;
            let m = ms2[ms.len() as int];
            &&& ms2 == ms.push(m)
            &&& o2 == locals_of(ms2)
            &&& !occ.contains(m.local)
            &&& forall|y: u16| y > m.local ==> occ.contains(y)
        }),
{
    lemma_highest_free(occ);
    let (o2, ms2, t2) = seat_spec(occ, ms, t, b)->Ok_0;
    let m = ms2[ms.len() as int];
    assert(ms2 == ms.push(m));
    lemma_locals_push(ms, m);
}

/// Every local above that of the member at `p` is held by a member before it.
pub open spec fn higher_locals_held(ms: Seq<MemberModel>, p: int, y: u16) -> bool {
    y > ms[p].local ==> exists|i: int| 0 <= i < p && #[trigger] ms[i].local == y
}

/// Each scalar prior of a built universe is seated at the highest local that no member
/// before it holds: no declaration member and no earlier prior holds its local, and every
/// higher local is held by one of them.
pub proof fn law_priors_seated_highest(p: ParsedEthos, bound: BoundIdentities)
    requires
        p@.declarations.len() <= usize::MAX,
        build_spec(p@.names, p@.declarations, bound@) is Ok,
    ensures
        ({
            let u = build_spec(p@.names, p@.declarations, bound@)->Ok_0;
            let n = p@.declarations.len() as int;
            &&& u.members.len() == n + 4
            &&& forall|q: int, i: int|
                n <= q < n + 4 && 0 <= i < q ==> (#[trigger] u.members[i]).local != (#[trigger] u.members[q]).local
            &&& forall|q: int, y: u16| n <= q < n + 4 ==> #[trigger] higher_locals_held(u.members, q, y)
        }),
{
    let names = p@.names;
    let decls = p@.declarations;
    let b = bound@;
    let n = decls.len() as int;
    let order = sort_by_local_spec(assign_spec(names, decls, b)->Ok_0);
    let (canonical, t) = canonical_spec(names, decls, order);
    let (ms, t2) = members_from(names, decls, order, canonical, 0, t)->Ok_0;
    lemma_assign_from(names, decls, b, 0);
    lemma_sort_by_local(assign_spec(names, decls, b)->Ok_0);
    lemma_members_from_layout(names, decls, order, canonical, 0, t);
    let o0 = locals_of(ms);
    lemma_seat_highest(o0, ms, t2, BuiltinReference::Integer);
    let (o1, m1, t3) = seat_spec(o0, ms, t2, BuiltinReference::Integer)->Ok_0;
    lemma_seat_highest(o1, m1, t3, BuiltinReference::String);
    let (o2, m2, t4) = seat_spec(o1, m1, t3, BuiltinReference::String)->Ok_0;
    lemma_seat_highest(o2, m2, t4, BuiltinReference::Boolean);
    let (o3, m3, t5) = seat_spec(o2, m2, t4, BuiltinReference::Boolean)->Ok_0;
    lemma_seat_highest(o3, m3, t5, BuiltinReference::Bytes);
    let (o4, m4, t6) = seat_spec(o3, m3, t5, BuiltinReference::Bytes)->Ok_0;
    let u = build_spec(names, decls, b)->Ok_0;
    assert(u.members == m4);
    assert(ms.len() == n);
    // Each earlier member stays in place as the priors are appended.
    assert forall|i: int| 0 <= i < n + 3 implies m4[i] == m3[i] by {}
    assert forall|i: int| 0 <= i < n + 2 implies m3[i] == m2[i] by {}
    assert forall|i: int| 0 <= i < n + 1 implies m2[i] == m1[i] by {}
    assert forall|q: int, i: int|
        n <= q < n + 4 && 0 <= i < q implies (#[trigger] u.members[i]).local != (#[trigger] u.members[q]).local by {
        let k = q - n;
        let pre = if k == 0 { ms } else if k == 1 { m1 } else if k == 2 { m2 } else { m3 };
        assert(pre.len() == n + k);
        assert(u.members[i] == pre[i]);
        assert(locals_of(pre).contains(pre[i].local));
    }
    assert forall|q: int, y: u16| n <= q < n + 4 implies #[trigger] higher_locals_held(u.members, q, y) by {
        let k = q - n;
        let pre = if k == 0 { ms } else if k == 1 { m1 } else if k == 2 { m2 } else { m3 };
        assert(pre.len() == n + k);
        if y > u.members[q].local {
            assert(locals_of(pre).contains(y));
            let i = choose|i: int| 0 <= i < pre.len() && #[trigger] pre[i].local == y;
            assert(u.members[i] == pre[i]);
        }
    }
}

/// The declaration member at `i` of a built universe comes from the declaration at the
/// `i`-th position of the order by local, at the local the authority bound to its name.
#[verifier::opaque]
spec fn member_origin(names: Seq<Seq<char>>, decls: Seq<DeclarationModel>, b: Seq<AssignmentModel>, i: int) -> bool {
    let order = sort_by_local_spec(assign_spec(names, decls, b)->Ok_0);
    let u = build_spec(names, decls, b)->Ok_0;
    let j = order[i].1 as int;
    &&& order.len() == decls.len()
    &&& 0 <= j < decls.len()
    &&& restates(names, decls[j], u.names, u.members[i].kind->Declaration_0)
    &&& lookup_spec(b, name_bytes(names, decls[j])) == Some(u.members[i].local as u32)
}

proof fn lemma_member_from(names: Seq<Seq<char>>, decls: Seq<DeclarationModel>, b: Seq<AssignmentModel>, i: int)
    requires
        decls.len() <= usize::MAX,
        build_spec(names, decls, b) is Ok,
        build_spec(names, decls, b)->Ok_0.names.len() <= usize::MAX,
        0 <= i < decls.len(),
    ensures
        member_origin(names, decls, b, i),
{
    let n = decls.len() as int;
    let pairs = assign_spec(names, decls, b)->Ok_0;
    let order = sort_by_local_spec(pairs);
    let (canonical, t) = canonical_spec(names, decls, order);
    let (ms, t2) = members_from(names, decls, order, canonical, 0, t)->Ok_0;
    let (occ, all, t3) = seat_builtins_spec(locals_of(ms), ms, t2)->Ok_0;
    let u = build_spec(names, decls, b)->Ok_0;
    assert(u.names == t3 && u.members == all);
    lemma_assign_from(names, decls, b, 0);
    lemma_sort_by_local(pairs);
    lemma_members_from_layout(names, decls, order, canonical, 0, t);
    lemma_seat_builtins_grows(locals_of(ms), ms, t2);
    lemma_members_restate(names, decls, b);
    lemma_locals_of(ms);
    lemma_seat_builtins_layout(locals_of(ms), ms, t2);
    assert(all.subrange(0, n)[i] == all[i]);
    assert(u.members[i] == ms[i]);
    let j = order[i].1 as int;
    let m = ms[i].kind->Declaration_0;
    lemma_same_type_extend(names, decls[j].value, t2, m.value, t3);
    assert(ms[0 + i].local == order[0 + i].0);
    assert(order.contains(order[i]));
    assert(pairs.contains(order[i]));
    let k = choose|k: int| 0 <= k < pairs.len() && pairs[k] == order[i];
    assert(pairs[0 + k] == pairs[k]);
    assert(k == j);
    assert(assign_one_spec(names, decls[j], b) == Ok::<u16, crate::error::IngestErrorModel>(order[i].0));
    assert(declared_key_spec(names, decls[j]) == Ok::<Seq<u8>, NameTableError>(name_bytes(names, decls[j])));
    let x = lookup_spec(b, name_bytes(names, decls[j]))->Some_0;
    assert(x <= 0xFFFF);
    assert(x == order[i].0 as u32);
    reveal(member_origin);
}

/// Some position of `order` holds the declaration at `j`.
pub open spec fn placed(order: Seq<(u16, usize)>, j: int) -> bool {
    exists|i: int| 0 <= i < order.len() && #[trigger] order[i].1 == j
}

/// Every declaration of the unit comes at some position of the order by local.
proof fn lemma_order_covers(names: Seq<Seq<char>>, decls: Seq<DeclarationModel>, b: Seq<AssignmentModel>)
    requires
        decls.len() <= usize::MAX,
        assign_spec(names, decls, b) is Ok,
    ensures
        ({
            let order = sort_by_local_spec(assign_spec(names, decls, b)->Ok_0);
            &&& order.len() == decls.len()
            &&& forall|j: int| 0 <= j < decls.len() ==> #[trigger] placed(order, j)
        }),
{
    let pairs = assign_spec(names, decls, b)->Ok_0;
    let order = sort_by_local_spec(pairs);
    lemma_assign_from(names, decls, b, 0);
    lemma_sort_by_local(pairs);
    assert forall|j: int| 0 <= j < decls.len() implies #[trigger] placed(order, j) by {
        assert(pairs[0 + j].1 == j);
        assert(pairs.contains(pairs[j]));
        assert(order.contains(pairs[j]));
        let i = choose|i: int| 0 <= i < order.len() && order[i] == pairs[j];
        assert(order[i].1 == j);
    }
}

/// Member `i` states a declaration whose name the authority bound to the member's local.
proof fn lemma_member_has_origin(names: Seq<Seq<char>>, decls: Seq<DeclarationModel>, b: Seq<AssignmentModel>, i: int)
    requires
        decls.len() <= usize::MAX,
        build_spec(names, decls, b) is Ok,
        build_spec(names, decls, b)->Ok_0.names.len() <= usize::MAX,
        0 <= i < decls.len(),
    ensures
        exists|j: int|
            0 <= j < decls.len() && #[trigger] restates(
                names,
                decls[j],
                build_spec(names, decls, b)->Ok_0.names,
                build_spec(names, decls, b)->Ok_0.members[i].kind->Declaration_0,
            ) && lookup_spec(b, name_bytes(names, decls[j])) == Some(
                build_spec(names, decls, b)->Ok_0.members[i].local as u32,
            ),
{
    lemma_member_from(names, decls, b, i);
    reveal(member_origin);
    let order = sort_by_local_spec(assign_spec(names, decls, b)->Ok_0);
    let u = build_spec(names, decls, b)->Ok_0;
    let j = order[i].1 as int;
    assert(restates(names, decls[j], u.names, u.members[i].kind->Declaration_0));
}

/// Some declaration member of `u` states the declaration at `j`, at the local that `bound`
/// gives that declaration's name.
pub open spec fn stated_at_bound_local(
    names: Seq<Seq<char>>,
    decls: Seq<DeclarationModel>,
    bound: Seq<AssignmentModel>,
    u: UniverseModel,
    j: int,
) -> bool {
    exists|i: int|
        0 <= i < decls.len() && #[trigger] restates(names, decls[j], u.names, u.members[i].kind->Declaration_0)
            && lookup_spec(bound, name_bytes(names, decls[j])) == Some(u.members[i].local as u32)
}

/// Declaration `j` is stated by a member at the local the authority bound to its name.
proof fn lemma_declaration_has_member(names: Seq<Seq<char>>, decls: Seq<DeclarationModel>, b: Seq<AssignmentModel>, j: int)
    requires
        decls.len() <= usize::MAX,
        build_spec(names, decls, b) is Ok,
        build_spec(names, decls, b)->Ok_0.names.len() <= usize::MAX,
        0 <= j < decls.len(),
    ensures
        stated_at_bound_local(names, decls, b, build_spec(names, decls, b)->Ok_0, j),
{
    assert(assign_spec(names, decls, b) is Ok);
    lemma_order_covers(names, decls, b);
    let order = sort_by_local_spec(assign_spec(names, decls, b)->Ok_0);
    let u = build_spec(names, decls, b)->Ok_0;
    assert(placed(order, j));
    let i = choose|i: int| 0 <= i < order.len() && #[trigger] order[i].1 == j;
    lemma_member_from(names, decls, b, i);
    reveal(member_origin);
    assert(order[i].1 as int == j);
    assert(restates(names, decls[j], u.names, u.members[i].kind->Declaration_0));
}

/// Every declaration of the unit becomes a member at the local the authority bound to its
/// name, and every declaration member is one: for each declaration member there is a
/// declaration it states whose name the authority bound to the member's local, and for each
/// declaration there is such a member.
pub proof fn law_members_at_bound_locals(p: ParsedEthos, bound: BoundIdentities)
    requires
        p@.declarations.len() <= usize::MAX,
        build_spec(p@.names, p@.declarations, bound@) is Ok,
        build_spec(p@.names, p@.declarations, bound@)->Ok_0.names.len() <= usize::MAX,
    ensures
        forall|i: int|
            0 <= i < p@.declarations.len() ==> exists|j: int|
                0 <= j < p@.declarations.len() && #[trigger] restates(
                    p@.names,
                    p@.declarations[j],
                    build_spec(p@.names, p@.declarations, bound@)->Ok_0.names,
                    build_spec(p@.names, p@.declarations, bound@)->Ok_0.members[i].kind->Declaration_0,
                ) && lookup_spec(bound@, name_bytes(p@.names, p@.declarations[j])) == Some(
                    (#[trigger] build_spec(p@.names, p@.declarations, bound@)->Ok_0.members[i]).local as u32,
                ),
        forall|j: int|
            0 <= j < p@.declarations.len() ==> #[trigger] stated_at_bound_local(
                p@.names,
                p@.declarations,
                bound@,
                build_spec(p@.names, p@.declarations, bound@)->Ok_0,
                j,
            ),
{
    let names = p@.names;
    let decls = p@.declarations;
    let b = bound@;
    assert forall|i: int| 0 <= i < decls.len() implies exists|j: int|
        0 <= j < decls.len() && #[trigger] restates(
            names,
            decls[j],
            build_spec(names, decls, b)->Ok_0.names,
            build_spec(names, decls, b)->Ok_0.members[i].kind->Declaration_0,
        ) && lookup_spec(b, name_bytes(names, decls[j])) == Some(
            (#[trigger] build_spec(names, decls, b)->Ok_0.members[i]).local as u32,
        ) by {
        lemma_member_has_origin(names, decls, b, i);
    }
    assert forall|j: int| 0 <= j < decls.len() implies #[trigger] stated_at_bound_local(
        names,
        decls,
        b,
        build_spec(names, decls, b)->Ok_0,
        j,
    ) by {
        lemma_declaration_has_member(names, decls, b, j);
    }
}

/// Where building fails in the assignment pass, one declaration's own assignment fails so.
proof fn lemma_assign_error(names: Seq<Seq<char>>, decls: Seq<DeclarationModel>, b: Seq<AssignmentModel>, i: int)
    requires
        0 <= i,
    ensures
        assign_from(names, decls, b, i) matches Err(e) ==> exists|j: int|
            i <= j < decls.len() && #[trigger] assign_one_spec(names, decls[j], b) == Err::<u16, crate::error::IngestErrorModel>(e),
    decreases decls.len() - i,
{
    if i < decls.len() {
        lemma_assign_error(names, decls, b, i + 1);
        if let Err(e) = assign_from(names, decls, b, i) {
            if assign_one_spec(names, decls[i], b) is Ok {
                let j = choose|j: int|
                    i + 1 <= j < decls.len() && #[trigger] assign_one_spec(names, decls[j], b) == Err::<u16, crate::error::IngestErrorModel>(e);
                assert(i <= j);
            }
        }
    }
}

/// Building the members fails only on an identifier that names no entry of the unit's table.
proof fn lemma_members_error(
    names: Seq<Seq<char>>,
    decls: Seq<DeclarationModel>,
    order: Seq<(u16, usize)>,
    canonical: Seq<Identifier>,
    k: int,
    dst: Seq<Seq<char>>,
)
    requires
        0 <= k,
    ensures
        members_from(names, decls, order, canonical, k, dst) matches Err(e) ==> reports_unresolved(names, e),
    decreases order.len() - k,
{
    if k < order.len() {
        lemma_declaration_restamp_error(names, dst, decls[order[k].1 as int], canonical[k]);
        if let Ok((_, d1)) = member_spec(names, decls, order, canonical, k, dst) {
            lemma_members_error(names, decls, order, canonical, k + 1, d1);
        }
    }
}

/// The locals the declaration members take are among those the authority bound to the
/// declarations' names.
proof fn lemma_member_locals_bound(names: Seq<Seq<char>>, decls: Seq<DeclarationModel>, b: Seq<AssignmentModel>)
    requires
        decls.len() <= usize::MAX,
        assign_spec(names, decls, b) is Ok,
        ({
            let order = sort_by_local_spec(assign_spec(names, decls, b)->Ok_0);
            let (canonical, t) = canonical_spec(names, decls, order);
            members_from(names, decls, order, canonical, 0, t) is Ok
        }),
    ensures
        ({
            let order = sort_by_local_spec(assign_spec(names, decls, b)->Ok_0);
            let (canonical, t) = canonical_spec(names, decls, order);
            let ms = members_from(names, decls, order, canonical, 0, t)->Ok_0.0;
            forall|l: u16| locals_of(ms).contains(l) ==> bound_locals(names, decls, b).contains(l)
        }),
{
    let pairs = assign_spec(names, decls, b)->Ok_0;
    lemma_assign_from(names, decls, b, 0);
    lemma_sort_by_local(pairs);
    let order = sort_by_local_spec(pairs);
    let (canonical, t) = canonical_spec(names, decls, order);
    let ms = members_from(names, decls, order, canonical, 0, t)->Ok_0.0;
    lemma_members_from_layout(names, decls, order, canonical, 0, t);
    assert forall|l: u16| locals_of(ms).contains(l) implies bound_locals(names, decls, b).contains(l) by {
        let i = choose|i: int| 0 <= i < ms.len() && #[trigger] ms[i].local == l;
        assert(ms[0 + i].local == order[0 + i].0);
        assert(order.contains(order[i]));
        assert(pairs.contains(order[i]));
        let k = choose|k: int| 0 <= k < pairs.len() && pairs[k] == order[i];
        assert(pairs[0 + k] == pairs[k]);
        assert(assign_one_spec(names, decls[k], b) == Ok::<u16, crate::error::IngestErrorModel>(l));
        assert(declared_key_spec(names, decls[k]) == Ok::<Seq<u8>, NameTableError>(name_bytes(names, decls[k])));
        let x = lookup_spec(b, name_bytes(names, decls[k]))->Some_0;
        assert(x <= 0xFFFF);
        assert(x == l as u32);
    }
}

/// What justifies a failure of building the universe assignment of `decls`, parsed against
/// `names`, from the reply `bound`: an identifier that names no entry; a declaration, named
/// in the table, whose name the reply does not bind; a declaration, named in the table, whose
/// name the reply binds to an identity above 0xFFFF; or fewer than four locals left over by
/// the declarations for the priors.
pub open spec fn build_error_justified(
    names: Seq<Seq<char>>,
    decls: Seq<DeclarationModel>,
    bound: Seq<AssignmentModel>,
    e: crate::error::IngestErrorModel,
) -> bool {
    match e {
        crate::error::IngestErrorModel::Names(x) => reports_unresolved(names, x),
        crate::error::IngestErrorModel::UnboundDeclaration(k) => exists|j: int|
            0 <= j < decls.len() && names_entry(names, decls[j].value.identifier()) && #[trigger] name_bytes(
                names,
                decls[j],
            ) == k && lookup_spec(bound, k) is None,
        crate::error::IngestErrorModel::AssignedIdentityOutOfRange(x) => exists|j: int|
            0 <= j < decls.len() && names_entry(names, decls[j].value.identifier()) && lookup_spec(
                bound,
                #[trigger] name_bytes(names, decls[j]),
            ) == Some(x) && x > 0xFFFF,
        crate::error::IngestErrorModel::BuiltinIdentitySpaceExhausted => !exists|a: u16, b: u16, c: u16, d: u16|
            #![auto]
            a != b && a != c && a != d && b != c && b != d && c != d && !bound_locals(
                names,
                decls,
                bound,
            ).contains(a) && !bound_locals(names, decls, bound).contains(b) && !bound_locals(
                names,
                decls,
                bound,
            ).contains(c) && !bound_locals(names, decls, bound).contains(d),
    }
}

/// Building the universe assignment fails only for a reason its inputs show: the error it
/// reports names an identifier that resolves nowhere, the key of a declared name the
/// authority left unbound, an identity above 0xFFFF bound to a declared name, or a unit
/// whose declarations leave fewer than four locals for the priors.
pub proof fn law_build_errors_justified(p: ParsedEthos, bound: BoundIdentities)
    requires
        p@.declarations.len() <= usize::MAX,
    ensures
        build_spec(p@.names, p@.declarations, bound@) matches Err(e) ==> build_error_justified(
            p@.names,
            p@.declarations,
            bound@,
            e,
        ),
{
    let names = p@.names;
    let decls = p@.declarations;
    let b = bound@;
    lemma_assign_error(names, decls, b, 0);
    if let Err(e) = assign_spec(names, decls, b) {
        let j = choose|j: int| 0 <= j < decls.len() && #[trigger] assign_one_spec(names, decls[j], b) == Err::<u16, crate::error::IngestErrorModel>(e);
        lemma_declaration_identity_error(names, decls[j]);
        if let Ok(k) = declared_key_spec(names, decls[j]) {
            assert(name_bytes(names, decls[j]) == k);
        }
    } else {
        let order = sort_by_local_spec(assign_spec(names, decls, b)->Ok_0);
        let (canonical, t) = canonical_spec(names, decls, order);
        lemma_members_error(names, decls, order, canonical, 0, t);
        if let Ok((ms, t2)) = members_from(names, decls, order, canonical, 0, t) {
            if seat_builtins_spec(locals_of(ms), ms, t2) is Err {
                lemma_member_locals_bound(names, decls, b);
                let free = bound_locals(names, decls, b);
                if exists|a: u16, bb: u16, c: u16, d: u16|
                    #![auto]
                    a != bb && a != c && a != d && bb != c && bb != d && c != d && !free.contains(a)
                        && !free.contains(bb) && !free.contains(c) && !free.contains(d) {
                    let (a, bb, c, d) = choose|a: u16, bb: u16, c: u16, d: u16|
                        #![auto]
                        a != bb && a != c && a != d && bb != c && bb != d && c != d && !free.contains(a)
                            && !free.contains(bb) && !free.contains(c) && !free.contains(d);
                    lemma_seat_builtins_room(locals_of(ms), ms, t2, a, bb, c, d);
                }
            }
        }
    }
}

/// Presenting the bind-or-mint set fails only on an identifier that names no entry of the
/// unit's table, and reports that identifier.
pub proof fn law_identities_errors_justified(p: ParsedEthos)
    ensures
        declared_identities_spec(p@) matches Err(e) ==> e matches crate::error::IngestErrorModel::Names(x)
            && reports_unresolved(p@.names, x),
{
    lemma_identities_error(p@.names, p@.declarations, 0);
}

proof fn lemma_identities_error(names: Seq<Seq<char>>, decls: Seq<DeclarationModel>, i: int)
    requires
        0 <= i,
    ensures
        identities_from(names, decls, i) matches Err(e) ==> e matches crate::error::IngestErrorModel::Names(x)
            && reports_unresolved(names, x),
    decreases decls.len() - i,
{
    if i < decls.len() {
        lemma_declaration_identity_error(names, decls[i]);
        lemma_identities_error(names, decls, i + 1);
    }
}

} // verus!
