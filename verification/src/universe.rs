//! The canonical assignment a universe is built from: one member per declaration at the
//! local identity the authority assigned it, sorted by local, with every name re-interned in
//! a fresh table in canonical order; then the builtin scalar priors, seated in unused locals
//! from the top of the u16 space.

use vstd::prelude::*;

use crate::declaration::{DeclarationModel, EncodedDeclaration};
use crate::error::{AuthorityIngestError, IngestErrorModel};
use std::collections::BTreeSet;
use crate::identity::{lookup_spec, AssignmentModel};
use crate::names::{spec_intern, spec_resolve, Identifier, Name, NameTable, NameTableError};
use crate::restamp::restamp_declaration_spec;
use crate::shape::declared_key_spec;
use crate::sort::{lemma_sort_by_local, sort_by_local_spec};

verus! {

/// A scalar that every universe holds. Each is seated under a fixed spelling in the
/// universe's name table: `integer`, `string`, `boolean` and `bytes` (see
/// [`builtin_spelling`]); those are the spellings this library assumes for the scalar
/// priors.
#[derive(Clone, Copy, Debug, PartialEq, Eq, Structural)]
pub enum BuiltinReference {
    Integer,
    String,
    Boolean,
    Bytes,
}

pub open spec fn builtin_spelling(b: BuiltinReference) -> Seq<char> {
    match b {
        BuiltinReference::Integer => "integer"@,
        BuiltinReference::String => "string"@,
        BuiltinReference::Boolean => "boolean"@,
        BuiltinReference::Bytes => "bytes"@,
    }
}

impl BuiltinReference {
    /// The builtin's name.
    pub fn spelling(&self) -> (s: &'static str)
        ensures
            s@ == builtin_spelling(*self),
    {
        match self {
            BuiltinReference::Integer => "integer",
            BuiltinReference::String => "string",
            BuiltinReference::Boolean => "boolean",
            BuiltinReference::Bytes => "bytes",
        }
    }
}

/// The storage slot of a scalar prior.
#[derive(Clone, Copy, Debug, PartialEq, Eq, Structural)]
pub enum ScalarSlot {
    Integer,
    Text,
    Boolean,
    Bytes,
}

/// What a member of the universe is.
#[derive(Debug)]
pub enum AssignedKind {
    Declaration(EncodedDeclaration),
    ScalarPrimitive(ScalarSlot),
}

pub enum KindModel {
    Declaration(DeclarationModel),
    ScalarPrimitive(ScalarSlot),
}

impl View for AssignedKind {
    type V = KindModel;

    open spec fn view(&self) -> KindModel {
        match self {
            AssignedKind::Declaration(d) => KindModel::Declaration(d@),
            AssignedKind::ScalarPrimitive(s) => KindModel::ScalarPrimitive(*s),
        }
    }
}

/// One member of the universe: its local identity, its name and what it is.
#[derive(Debug)]
pub struct AssignedMember {
    pub local: u16,
    pub identifier: Identifier,
    pub kind: AssignedKind,
}

pub struct MemberModel {
    pub local: u16,
    pub identifier: Identifier,
    pub kind: KindModel,
}

impl View for AssignedMember {
    type V = MemberModel;

    open spec fn view(&self) -> MemberModel {
        MemberModel { local: self.local, identifier: self.identifier, kind: self.kind@ }
    }
}

/// The members of a universe and the name table they are stamped against: the canonical
/// assignment that an encoded universe is made from. Encoding it, and the failures of that
/// encoding, are not part of this library.
#[derive(Debug)]
pub struct UniverseAssignment {
    pub members: Vec<AssignedMember>,
    pub names: NameTable,
}

pub struct UniverseModel {
    pub members: Seq<MemberModel>,
    pub names: Seq<Seq<char>>,
}

impl View for UniverseAssignment {
    type V = UniverseModel;

    open spec fn view(&self) -> UniverseModel {
        UniverseModel {
            members: self.members@.map_values(|m: AssignedMember| m@),
            names: self.names@,
        }
    }
}

/// The local identity the authority assigned a declaration: its key's first binding,
/// which must fit a u16.
pub open spec fn assign_one_spec(names: Seq<Seq<char>>, d: DeclarationModel, bound: Seq<AssignmentModel>) -> Result<u16, IngestErrorModel> {
    match declared_key_spec(names, d) {
        Err(e) => Err(IngestErrorModel::Names(e)),
        Ok(key) => match lookup_spec(bound, key) {
            None => Err(IngestErrorModel::UnboundDeclaration(key)),
            Some(identity) => if identity <= 0xFFFF {
                Ok(identity as u16)
            } else {
                Err(IngestErrorModel::AssignedIdentityOutOfRange(identity))
            },
        },
    }
}

/// The locals of declarations `i..`, each paired with its position, in parse order; the
/// first failing declaration's error.
pub open spec fn assign_from(names: Seq<Seq<char>>, decls: Seq<DeclarationModel>, bound: Seq<AssignmentModel>, i: int) -> Result<Seq<(u16, usize)>, IngestErrorModel>
    decreases decls.len() - i,
{
    if i >= decls.len() {
        Ok(Seq::empty())
    } else {
        match assign_one_spec(names, decls[i], bound) {
            Err(e) => Err(e),
            Ok(local) => match assign_from(names, decls, bound, i + 1) {
                Err(e) => Err(e),
                Ok(rest) => Ok(seq![(local, i as usize)] + rest),
            },
        }
    }
}

/// Each declaration's local, paired with its position, in parse order; the first failing
/// declaration's error.
pub open spec fn assign_spec(names: Seq<Seq<char>>, decls: Seq<DeclarationModel>, bound: Seq<AssignmentModel>) -> Result<Seq<(u16, usize)>, IngestErrorModel> {
    assign_from(names, decls, bound, 0)
}

/// The spelling `id` names in `names`, or none.
pub open spec fn spelling_of(names: Seq<Seq<char>>, id: Identifier) -> Seq<char> {
    if id.index < names.len() {
        names[id.index as int]
    } else {
        Seq::empty()
    }
}

/// The names of the declarations at `order[k..]` interned in `t` in that order, and the
/// identifiers they got.
pub open spec fn canonical_from(names: Seq<Seq<char>>, decls: Seq<DeclarationModel>, order: Seq<(u16, usize)>, k: int, t: Seq<Seq<char>>) -> (Seq<Identifier>, Seq<Seq<char>>)
    decreases order.len() - k,
{
    if k >= order.len() {
        (Seq::empty(), t)
    } else {
        let s = spelling_of(names, decls[order[k].1 as int].value.identifier());
        let next = canonical_from(names, decls, order, k + 1, spec_intern(t, s).0);
        (seq![spec_intern(t, s).1] + next.0, next.1)
    }
}

/// The declarations' names interned in a fresh table in `order`, and the identifiers they got.
pub open spec fn canonical_spec(names: Seq<Seq<char>>, decls: Seq<DeclarationModel>, order: Seq<(u16, usize)>) -> (Seq<Identifier>, Seq<Seq<char>>) {
    canonical_from(names, decls, order, 0, Seq::empty())
}

/// The member for `order[k]`: the declaration at that position re-stamped against `dst`
/// under its canonical name.
pub open spec fn member_spec(names: Seq<Seq<char>>, decls: Seq<DeclarationModel>, order: Seq<(u16, usize)>, canonical: Seq<Identifier>, k: int, dst: Seq<Seq<char>>) -> Result<(MemberModel, Seq<Seq<char>>), NameTableError> {
    match restamp_declaration_spec(names, dst, decls[order[k].1 as int], canonical[k]) {
        Ok((dm, d)) => Ok(
            (
                MemberModel {
                    local: order[k].0,
                    identifier: canonical[k],
                    kind: KindModel::Declaration(dm),
                },
                d,
            ),
        ),
        Err(e) => Err(e),
    }
}

/// The members for `order[k..]`, each re-stamped against the table the previous ones left.
pub open spec fn members_from(names: Seq<Seq<char>>, decls: Seq<DeclarationModel>, order: Seq<(u16, usize)>, canonical: Seq<Identifier>, k: int, dst: Seq<Seq<char>>) -> Result<(Seq<MemberModel>, Seq<Seq<char>>), NameTableError>
    decreases order.len() - k,
{
    if k >= order.len() {
        Ok((Seq::empty(), dst))
    } else {
        match member_spec(names, decls, order, canonical, k, dst) {
            Err(e) => Err(e),
            Ok((m, d1)) => match members_from(names, decls, order, canonical, k + 1, d1) {
                Err(e) => Err(e),
                Ok((rest, d2)) => Ok((seq![m] + rest, d2)),
            },
        }
    }
}

/// The locals that `ms` occupy.
pub open spec fn locals_of(ms: Seq<MemberModel>) -> Set<u16> {
    Set::new(|l: u16| exists|i: int| 0 <= i < ms.len() && #[trigger] ms[i].local == l)
}

/// The highest u16 not in `occupied`, if any.
pub open spec fn highest_free(occupied: Set<u16>) -> Option<u16> {
    if exists|x: u16| !occupied.contains(x) {
        Some(choose|x: u16| !occupied.contains(x) && forall|y: u16| !occupied.contains(y) ==> y <= x)
    } else {
        None
    }
}

pub open spec fn slot_of(b: BuiltinReference) -> ScalarSlot {
    match b {
        BuiltinReference::Integer => ScalarSlot::Integer,
        BuiltinReference::String => ScalarSlot::Text,
        BuiltinReference::Boolean => ScalarSlot::Boolean,
        BuiltinReference::Bytes => ScalarSlot::Bytes,
    }
}

pub type Seating = Result<(Set<u16>, Seq<MemberModel>, Seq<Seq<char>>), IngestErrorModel>;

/// Seats builtin `b` at the highest unoccupied local, named by its spelling.
pub open spec fn seat_spec(occupied: Set<u16>, ms: Seq<MemberModel>, t: Seq<Seq<char>>, b: BuiltinReference) -> Seating {
    match highest_free(occupied) {
        None => Err(IngestErrorModel::BuiltinIdentitySpaceExhausted),
        Some(local) => Ok(
            (
                occupied.insert(local),
                ms.push(
                    MemberModel {
                        local,
                        identifier: spec_intern(t, builtin_spelling(b)).1,
                        kind: KindModel::ScalarPrimitive(slot_of(b)),
                    },
                ),
                spec_intern(t, builtin_spelling(b)).0,
            ),
        ),
    }
}

pub open spec fn seat_then(prev: Seating, b: BuiltinReference) -> Seating {
    match prev {
        Err(e) => Err(e),
        Ok((o, ms, t)) => seat_spec(o, ms, t, b),
    }
}

/// The four scalar priors, seated in order: integer, string, boolean, bytes.
pub open spec fn seat_builtins_spec(occupied: Set<u16>, ms: Seq<MemberModel>, t: Seq<Seq<char>>) -> Seating {
    seat_then(
        seat_then(
            seat_then(seat_spec(occupied, ms, t, BuiltinReference::Integer), BuiltinReference::String),
            BuiltinReference::Boolean,
        ),
        BuiltinReference::Bytes,
    )
}

/// What building the universe assignment of declarations `decls`, parsed against `names`,
/// from the authority's reply `bound` gives.
pub open spec fn build_spec(names: Seq<Seq<char>>, decls: Seq<DeclarationModel>, bound: Seq<AssignmentModel>) -> Result<UniverseModel, IngestErrorModel> {
    match assign_spec(names, decls, bound) {
        Err(e) => Err(e),
        Ok(pairs) => {
            let order = sort_by_local_spec(pairs);
            let (canonical, t) = canonical_spec(names, decls, order);
            match members_from(names, decls, order, canonical, 0, t) {
                Err(e) => Err(IngestErrorModel::Names(e)),
                Ok((ms, t2)) => match seat_builtins_spec(locals_of(ms), ms, t2) {
                    Err(e) => Err(e),
                    Ok((_, all, t3)) => Ok(UniverseModel { members: all, names: t3 }),
                },
            }
        },
    }
}

/// What `assign_from` gives, where it succeeds: one pair per declaration from `i` on, each
/// with its position and its own local.
pub proof fn lemma_assign_from(names: Seq<Seq<char>>, decls: Seq<DeclarationModel>, bound: Seq<AssignmentModel>, i: int)
    requires
        0 <= i <= decls.len(),
        decls.len() <= usize::MAX,
        assign_from(names, decls, bound, i) is Ok,
    ensures
        assign_from(names, decls, bound, i)->Ok_0.len() == decls.len() - i,
        forall|k: int|
            0 <= k < decls.len() - i ==> {
                &&& (#[trigger] assign_from(names, decls, bound, i)->Ok_0[k]).1 == i + k
                &&& assign_one_spec(names, decls[i + k], bound) == Ok::<u16, IngestErrorModel>(
                    assign_from(names, decls, bound, i)->Ok_0[k].0,
                )
            },
    decreases decls.len() - i,
{
    if i < decls.len() {
        lemma_assign_from(names, decls, bound, i + 1);
        let p = assign_from(names, decls, bound, i)->Ok_0;
        let rest = assign_from(names, decls, bound, i + 1)->Ok_0;
        let one = assign_one_spec(names, decls[i], bound);
        assert(one is Ok);
        assert(p == seq![(one->Ok_0, i as usize)] + rest);
        assert forall|k: int| 0 <= k < decls.len() - i implies {
            &&& (#[trigger] p[k]).1 == i + k
            &&& assign_one_spec(names, decls[i + k], bound) == Ok::<u16, IngestErrorModel>(p[k].0)
        } by {
            if k > 0 {
                assert(p[k] == rest[k - 1]);
                assert(i + 1 + (k - 1) == i + k);
            } else {
                assert(p[0] == (one->Ok_0, i as usize));
            }
        }
    }
}

/// Where every declaration got a local, each entry of the sorted pairs names a declaration
/// whose name resolves.
pub proof fn lemma_order_resolvable(names: Seq<Seq<char>>, decls: Seq<DeclarationModel>, bound: Seq<AssignmentModel>)
    requires
        decls.len() <= usize::MAX,
        assign_spec(names, decls, bound) is Ok,
    ensures
        forall|k: int|
            0 <= k < sort_by_local_spec(assign_spec(names, decls, bound)->Ok_0).len() ==> {
                let p = #[trigger] sort_by_local_spec(assign_spec(names, decls, bound)->Ok_0)[k];
                &&& p.1 < decls.len()
                &&& spec_resolve(names, decls[p.1 as int].value.identifier()) is Ok
            },
{
    let pairs = assign_spec(names, decls, bound)->Ok_0;
    let order = sort_by_local_spec(pairs);
    lemma_assign_from(names, decls, bound, 0);
    lemma_sort_by_local(pairs);
    assert forall|k: int| 0 <= k < order.len() implies {
        let p = #[trigger] order[k];
        &&& p.1 < decls.len()
        &&& spec_resolve(names, decls[p.1 as int].value.identifier()) is Ok
    } by {
        assert(order.contains(order[k]));
        assert(pairs.contains(order[k]));
        let j = choose|j: int| 0 <= j < pairs.len() && pairs[j] == order[k];
        assert(assign_one_spec(names, decls[0 + j], bound) is Ok);
    }
}

/// Adding one member to those looked at adds its local.
pub proof fn lemma_locals_of_take(ms: Seq<MemberModel>, k: int)
    requires
        0 <= k < ms.len(),
    ensures
        locals_of(ms.take(k + 1)) == locals_of(ms.take(k)).insert(ms[k].local),
{
    let a = ms.take(k + 1);
    let b = ms.take(k);
    assert forall|l: u16| locals_of(a).contains(l) <==> locals_of(b).insert(ms[k].local).contains(l) by {
        if locals_of(a).contains(l) {
            let i = choose|i: int| 0 <= i < a.len() && #[trigger] a[i].local == l;
            if i < k {
                assert(b[i].local == l);
            }
        }
        if locals_of(b).contains(l) {
            let i = choose|i: int| 0 <= i < b.len() && #[trigger] b[i].local == l;
            assert(a[i].local == l);
        }
        if l == ms[k].local {
            assert(a[k].local == l);
        }
    }
    assert(locals_of(a) =~= locals_of(b).insert(ms[k].local));
}

/// The highest local that `occupied` leaves free, if any.
pub(crate) fn highest_free_local(occupied: &BTreeSet<u16>) -> (r: Option<u16>)
    ensures
        r == highest_free(occupied@),
{
    let mut c: u16 = 0xFFFF;
    loop
        invariant
            forall|y: u16| y > c ==> occupied@.contains(y),
        decreases c,
    {
        if !occupied.contains(&c) {
            proof {
                assert(!occupied@.contains(c));
                let x = choose|x: u16| !occupied@.contains(x) && forall|y: u16| !occupied@.contains(y) ==> y <= x;
                assert(!occupied@.contains(x) && forall|y: u16| !occupied@.contains(y) ==> y <= x);
                assert(x <= c);
            }
            return Some(c);
        }
        if c == 0 {
            proof {
                assert forall|x: u16| occupied@.contains(x) by {
                    if x > 0 {
                    }
                }
            }
            return None;
        }
        c = c - 1;
    }
}

/// Seats builtin `builtin` at the highest unoccupied local, named by its spelling.
pub(crate) fn seat_builtin(occupied: &mut BTreeSet<u16>, members: &mut Vec<AssignedMember>, names: &mut NameTable, builtin: BuiltinReference) -> (r: Result<(), AuthorityIngestError>)
    ensures
        match seat_spec(old(occupied)@, old(members)@.map_values(|m: AssignedMember| m@), old(names)@, builtin) {
            Ok((o, ms, t)) => {
                &&& r is Ok
                &&& final(occupied)@ == o
                &&& final(members)@.map_values(|m: AssignedMember| m@) == ms
                &&& final(names)@ == t
            },
            Err(e) => r matches Err(x) && x@ == e,
        },
{
    let local = match highest_free_local(occupied) {
        Some(local) => local,
        None => {
            return Err(AuthorityIngestError::BuiltinIdentitySpaceExhausted);
        },
    };
    occupied.insert(local);
    let identifier = names.intern(Name::new(builtin.spelling()));
    let slot = match builtin {
        BuiltinReference::Integer => ScalarSlot::Integer,
        BuiltinReference::String => ScalarSlot::Text,
        BuiltinReference::Boolean => ScalarSlot::Boolean,
        BuiltinReference::Bytes => ScalarSlot::Bytes,
    };
    let ghost before = members@.map_values(|m: AssignedMember| m@);
    let member = AssignedMember { local, identifier, kind: AssignedKind::ScalarPrimitive(slot) };
    let ghost gm = member@;
    members.push(member);
    assert(members@.map_values(|m: AssignedMember| m@) =~= before.push(gm));
    Ok(())
}

/// The locals that `members` occupy.
pub(crate) fn occupied_locals(members: &Vec<AssignedMember>) -> (r: BTreeSet<u16>)
    ensures
        r@ == locals_of(members@.map_values(|m: AssignedMember| m@)),
{
    let ghost ms = members@.map_values(|m: AssignedMember| m@);
    let mut occupied: BTreeSet<u16> = BTreeSet::new();
    let mut k: usize = 0;
    assert(locals_of(ms.take(0)) =~= Set::<u16>::empty());
    while k < members.len()
        invariant
            0 <= k <= members.len(),
            ms == members@.map_values(|m: AssignedMember| m@),
            occupied@ == locals_of(ms.take(k as int)),
        decreases members.len() - k,
    {
        proof {
            lemma_locals_of_take(ms, k as int);
        }
        occupied.insert(members[k].local);
        k = k + 1;
    }
    assert(ms.take(members.len() as int) =~= ms);
    occupied
}

/// Seats the scalar priors in order: integer, string, boolean, bytes.
pub(crate) fn seat_builtins(occupied: &mut BTreeSet<u16>, members: &mut Vec<AssignedMember>, names: &mut NameTable) -> (r: Result<(), AuthorityIngestError>)
    ensures
        match seat_builtins_spec(old(occupied)@, old(members)@.map_values(|m: AssignedMember| m@), old(names)@) {
            Ok((o, ms, t)) => {
                &&& r is Ok
                &&& final(members)@.map_values(|m: AssignedMember| m@) == ms
                &&& final(names)@ == t
            },
            Err(e) => r matches Err(x) && x@ == e,
        },
{
    match seat_builtin(occupied, members, names, BuiltinReference::Integer) {
        Ok(()) => {},
        Err(e) => {
            return Err(e);
        },
    }
    match seat_builtin(occupied, members, names, BuiltinReference::String) {
        Ok(()) => {},
        Err(e) => {
            return Err(e);
        },
    }
    match seat_builtin(occupied, members, names, BuiltinReference::Boolean) {
        Ok(()) => {},
        Err(e) => {
            return Err(e);
        },
    }
    seat_builtin(occupied, members, names, BuiltinReference::Bytes)
}

} // verus!
