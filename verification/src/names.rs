//! The name space that declarations are parsed against: an interning table that maps
//! each identifier to one spelling, with no spelling stored twice.

use vstd::prelude::*;

verus! {

/// A position in a [`NameTable`].
#[derive(Clone, Copy, Debug, PartialEq, Eq, Structural)]
pub struct Identifier {
    pub index: usize,
}

/// A name's spelling.
#[derive(Clone, Debug)]
pub struct Name {
    pub spelling: String,
}

impl View for Name {
    type V = Seq<char>;

    open spec fn view(&self) -> Seq<char> {
        self.spelling@
    }
}

impl Name {
    /// A name spelled as `spelling`.
    pub fn new(spelling: &str) -> (name: Name)
        ensures
            name@ == spelling@,
    {
        Name { spelling: spelling.to_owned() }
    }

    /// The name's spelling.
    pub fn as_str(&self) -> (s: &str)
        ensures
            s@ == self@,
    {
        self.spelling.as_str()
    }
}

/// The namespace a table's entries are owned by.
#[derive(Clone, Copy, Debug, PartialEq, Eq, Structural)]
pub enum IdentifierNamespace {
    Schema,
}

/// A failure to resolve an identifier.
#[derive(Clone, Copy, Debug, PartialEq, Eq, Structural)]
pub enum NameTableError {
    /// The identifier names no entry of the table.
    UnknownIdentifier(Identifier),
}

/// An interning table of spellings.
#[derive(Debug)]
pub struct NameTable {
    namespace: IdentifierNamespace,
    spellings: Vec<Name>,
}

/// No spelling occurs twice.
pub open spec fn distinct_spellings(t: Seq<Seq<char>>) -> bool {
    forall|i: int, j: int| 0 <= i < t.len() && 0 <= j < t.len() && i != j ==> t[i] != t[j]
}

/// What resolving `id` against the table `t` gives.
pub open spec fn spec_resolve(t: Seq<Seq<char>>, id: Identifier) -> Result<Seq<char>, NameTableError> {
    if id.index < t.len() {
        Ok(t[id.index as int])
    } else {
        Err(NameTableError::UnknownIdentifier(id))
    }
}

/// The position of `name` in `t`, where `t` holds it.
pub open spec fn position_of(t: Seq<Seq<char>>, name: Seq<char>) -> int {
    choose|i: int| 0 <= i < t.len() && t[i] == name
}

/// The table after interning `name` in `t`, and the identifier handed out: the existing
/// entry's where `t` already holds the spelling, else a new entry appended at the end.
pub open spec fn spec_intern(t: Seq<Seq<char>>, name: Seq<char>) -> (Seq<Seq<char>>, Identifier) {
    if t.contains(name) {
        (t, Identifier { index: position_of(t, name) as usize })
    } else {
        (t.push(name), Identifier { index: t.len() as usize })
    }
}

/// Interning only ever appends, and never shrinks the table.
pub proof fn lemma_intern_grows(t: Seq<Seq<char>>, name: Seq<char>)
    ensures
        spec_intern(t, name).0.len() >= t.len(),
        spec_intern(t, name).0.subrange(0, t.len() as int) == t,
        spec_intern(t, name).0.contains(name),
{
    if t.contains(name) {
        assert(t.subrange(0, t.len() as int) =~= t);
    } else {
        let t2 = t.push(name);
        assert(t2.subrange(0, t.len() as int) =~= t);
        assert(t2[t.len() as int] == name);
    }
}

/// Interning keeps the spellings distinct and hands out an identifier that resolves to the
/// interned spelling.
pub proof fn lemma_intern(t: Seq<Seq<char>>, name: Seq<char>)
    requires
        distinct_spellings(t),
        spec_intern(t, name).0.len() <= usize::MAX,
    ensures
        distinct_spellings(spec_intern(t, name).0),
        spec_intern(t, name).0.len() >= t.len(),
        spec_intern(t, name).0.subrange(0, t.len() as int) == t,
        spec_resolve(spec_intern(t, name).0, spec_intern(t, name).1) == Ok::<Seq<char>, NameTableError>(name),
        spec_intern(t, name).0.contains(name),
{
    lemma_intern_grows(t, name);
    if t.contains(name) {
        let i = choose|i: int| 0 <= i < t.len() && t[i] == name;
        assert(0 <= i < t.len() && t[i] == name);
    } else {
        let t2 = t.push(name);
        assert forall|i: int, j: int| 0 <= i < t2.len() && 0 <= j < t2.len() && i != j implies t2[i] != t2[j] by {
            if i < t.len() && j < t.len() {
            } else if i < t.len() {
                assert(t.contains(t[i]));
            } else {
                assert(t.contains(t[j]));
            }
        }
    }
}

/// Interning a spelling twice hands out the same identifier and leaves the table as the
/// first interning left it.
pub proof fn law_intern_idempotent(t: Seq<Seq<char>>, name: Seq<char>)
    requires
        distinct_spellings(t),
        spec_intern(t, name).0.len() <= usize::MAX,
    ensures
        spec_intern(spec_intern(t, name).0, name) == spec_intern(t, name),
{
    lemma_intern(t, name);
    let (t1, id) = spec_intern(t, name);
    let p = position_of(t1, name);
    assert(0 <= p < t1.len() && t1[p] == name);
    assert(t1[id.index as int] == name);
    assert(p == id.index);
}

impl View for NameTable {
    type V = Seq<Seq<char>>;

    closed spec fn view(&self) -> Seq<Seq<char>> {
        self.spellings@.map_values(|n: Name| n@)
    }
}

impl NameTable {
    /// The table's invariant: no spelling occurs twice.
    #[verifier::type_invariant]
    spec fn wf(&self) -> bool {
        distinct_spellings(self@)
    }

    /// The namespace the table's entries belong to.
    pub closed spec fn namespace_spec(&self) -> IdentifierNamespace {
        self.namespace
    }

    /// An empty table for `namespace`.
    pub fn new(namespace: IdentifierNamespace) -> (t: NameTable)
        ensures
            t.namespace_spec() == namespace,
            t@ == Seq::<Seq<char>>::empty(),
    {
        let t = NameTable { namespace, spellings: Vec::new() };
        assert(t@ =~= Seq::<Seq<char>>::empty());
        t
    }

    /// The number of entries.
    pub fn len(&self) -> (n: usize)
        ensures
            n == self@.len(),
    {
        self.spellings.len()
    }

    /// The spelling that `identifier` names, or `UnknownIdentifier` where it names none.
    pub fn resolve(&self, identifier: Identifier) -> (r: Result<&Name, NameTableError>)
        ensures
            match r {
                Ok(name) => spec_resolve(self@, identifier) == Ok::<Seq<char>, NameTableError>(
                    name@,
                ),
                Err(e) => spec_resolve(self@, identifier) == Err::<Seq<char>, NameTableError>(e),
            },
    {
        if identifier.index < self.spellings.len() {
            Ok(&self.spellings[identifier.index])
        } else {
            Err(NameTableError::UnknownIdentifier(identifier))
        }
    }

    /// Interns `name`: hands back the identifier of the entry that already holds its
    /// spelling, or appends a new entry. This table sets no capacity limit, so interning
    /// never fails and gives no error for a caller to pass on; a table that could refuse an
    /// entry would add an error path to every re-stamping function.
    pub fn intern(&mut self, name: Name) -> (id: Identifier)
        ensures
            (final(self)@, id) == spec_intern(old(self)@, name@),
    {
        proof {
            use_type_invariant(&*self);
        }
        let ghost t = self@;
        let mut i: usize = 0;
        while i < self.spellings.len()
            invariant
                0 <= i <= self.spellings.len(),
                t == self@,
                distinct_spellings(t),
                forall|k: int| 0 <= k < i ==> t[k] != name@,
            decreases self.spellings.len() - i,
        {
            if self.spellings[i].spelling == name.spelling {
                assert(t[i as int] == name@);
                assert(t.contains(name@));
                proof {
                    let p = position_of(t, name@);
                    assert(0 <= p < t.len() && t[p] == name@);
                }
                return Identifier { index: i };
            }
            i = i + 1;
        }
        assert(!t.contains(name@));
        let n = self.spellings.len();
        let mut spellings: Vec<Name> = Vec::new();
        std::mem::swap(&mut spellings, &mut self.spellings);
        let ghost spelled = name@;
        spellings.push(name);
        let after = spellings.len();
        proof {
            assert(after == t.len() + 1);
            assert(spellings@.map_values(|m: Name| m@) =~= t.push(spelled));
            lemma_intern(t, spelled);
        }
        self.spellings = spellings;
        assert(self@ =~= t.push(spelled));
        Identifier { index: n }
    }
}

} // verus!
