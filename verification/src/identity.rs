//! What is presented to the identity authority, and what it answers: bind-or-mint
//! declarations keyed by declared name and fingerprinted by declared shape, and the
//! identities it bound to those keys.

use vstd::prelude::*;

use crate::shape::{HashInput, HashInputModel};

verus! {

/// The key a declaration binds or mints under: the bytes of its resolved name.
#[derive(Clone, Debug, PartialEq, Eq)]
pub struct DeclaredKey(pub Vec<u8>);

impl View for DeclaredKey {
    type V = Seq<u8>;

    open spec fn view(&self) -> Seq<u8> {
        self.0@
    }
}

/// The structural fingerprint of a declaration, as the ordered input of the identity hasher.
/// Digesting this input is the hasher's work and is not done here: what is presented is the
/// sequence of updates, each framed on its own.
#[derive(Clone, Debug, PartialEq, Eq)]
pub struct DeclaredShape(pub Vec<HashInput>);

impl View for DeclaredShape {
    type V = Seq<HashInputModel>;

    open spec fn view(&self) -> Seq<HashInputModel> {
        self.0@.map_values(|h: HashInput| h@)
    }
}

/// What the authority is asked to do with a declaration.
#[derive(Clone, Copy, Debug, PartialEq, Eq, Structural)]
pub enum IdentityIntent {
    /// Bind the key's existing identity, or mint one.
    MintOrBind,
}

/// One declaration as presented to the authority.
#[derive(Clone, Debug)]
pub struct DeclaredIdentity {
    pub key: DeclaredKey,
    pub shape: DeclaredShape,
    pub intent: IdentityIntent,
}

pub struct DeclaredIdentityModel {
    pub key: Seq<u8>,
    pub shape: Seq<HashInputModel>,
    pub intent: IdentityIntent,
}

impl View for DeclaredIdentity {
    type V = DeclaredIdentityModel;

    open spec fn view(&self) -> DeclaredIdentityModel {
        DeclaredIdentityModel { key: self.key@, shape: self.shape@, intent: self.intent }
    }
}

/// An identity as the authority assigns it.
#[derive(Clone, Copy, Debug, PartialEq, Eq, Structural)]
pub struct AssignedIdentity(pub u32);

/// The identity the authority bound to one key.
#[derive(Clone, Debug)]
pub struct IdentityAssignment {
    pub key: DeclaredKey,
    pub identity: AssignedIdentity,
}

pub struct AssignmentModel {
    pub key: Seq<u8>,
    pub identity: u32,
}

impl View for IdentityAssignment {
    type V = AssignmentModel;

    open spec fn view(&self) -> AssignmentModel {
        AssignmentModel { key: self.key@, identity: self.identity.0 }
    }
}

/// The authority's reply: its assignments, in the order it gave them.
#[derive(Clone, Debug)]
pub struct BoundIdentities {
    pub assignments: Vec<IdentityAssignment>,
}

impl View for BoundIdentities {
    type V = Seq<AssignmentModel>;

    open spec fn view(&self) -> Seq<AssignmentModel> {
        self.assignments@.map_values(|a: IdentityAssignment| a@)
    }
}

/// The identity bound to `key`: that of the first assignment whose key it is.
pub open spec fn lookup_spec(bound: Seq<AssignmentModel>, key: Seq<u8>) -> Option<u32>
    decreases bound.len(),
{
    if bound.len() == 0 {
        None
    } else if bound[0].key == key {
        Some(bound[0].identity)
    } else {
        lookup_spec(bound.drop_first(), key)
    }
}

/// `a` and `b` hold the same bytes.
fn bytes_equal(a: &Vec<u8>, b: &Vec<u8>) -> (r: bool)
    ensures
        r == (a@ == b@),
{
    if a.len() != b.len() {
        return false;
    }
    let mut i: usize = 0;
    while i < a.len()
        invariant
            a.len() == b.len(),
            0 <= i <= a.len(),
            forall|k: int| 0 <= k < i ==> a@[k] == b@[k],
        decreases a.len() - i,
    {
        if a[i] != b[i] {
            return false;
        }
        i = i + 1;
    }
    assert(a@ =~= b@);
    true
}

impl BoundIdentities {
    /// The identity bound to `key`: that of the first assignment whose key it is.
    pub(crate) fn find(&self, key: &DeclaredKey) -> (r: Option<u32>)
        ensures
            r == lookup_spec(self@, key@),
    {
        let ghost whole = self@;
        let mut i: usize = 0;
        assert(whole.skip(0) =~= whole);
        while i < self.assignments.len()
            invariant
                0 <= i <= self.assignments.len(),
                whole == self@,
                whole.len() == self.assignments.len(),
                lookup_spec(whole, key@) == lookup_spec(whole.skip(i as int), key@),
            decreases self.assignments.len() - i,
        {
            let ghost rest = whole.skip(i as int);
            assert(rest[0] == self.assignments@[i as int]@);
            if bytes_equal(&self.assignments[i].key.0, &key.0) {
                return Some(self.assignments[i].identity.0);
            }
            assert(rest.drop_first() =~= whole.skip(i + 1));
            i = i + 1;
        }
        assert(whole.skip(i as int).len() == 0);
        None
    }
}

} // verus!
