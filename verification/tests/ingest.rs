use authority_ingest::declaration::{
    DeclarationRole, EncodedDeclaration, EncodedEnum, EncodedEthos, EncodedField, EncodedNewtype,
    EncodedReference, EncodedStruct, EncodedType, EncodedVariant, Visibility,
};
use authority_ingest::error::AuthorityIngestError;
use authority_ingest::identity::{
    AssignedIdentity, BoundIdentities, DeclaredKey, IdentityAssignment, IdentityIntent,
};
use authority_ingest::ingest::ParsedEthos;
use authority_ingest::names::{Identifier, IdentifierNamespace, Name, NameTable, NameTableError};
use authority_ingest::shape::HashInput;
use authority_ingest::universe::{AssignedKind, ScalarSlot};

fn table(spellings: &[&str]) -> NameTable {
    let mut t = NameTable::new(IdentifierNamespace::Schema);
    for s in spellings {
        t.intern(Name::new(s));
    }
    t
}

fn id(index: usize) -> Identifier {
    Identifier { index }
}

fn raw(bytes: &[u8]) -> HashInput {
    HashInput::Raw(bytes.to_vec())
}

fn prefixed(bytes: &[u8]) -> HashInput {
    HashInput::LengthPrefixed(bytes.to_vec())
}

fn bind(entries: &[(&str, u32)]) -> BoundIdentities {
    BoundIdentities {
        assignments: entries
            .iter()
            .map(|(k, i)| IdentityAssignment {
                key: DeclaredKey(k.as_bytes().to_vec()),
                identity: AssignedIdentity(*i),
            })
            .collect(),
    }
}

/// `Point { x: Integer, y: Plain(Label) }` and `Label(String)`, with the given numbering of
/// names and the given order of declarations.
fn point_and_label(names: &[&str], point_first: bool) -> ParsedEthos {
    let t = table(names);
    let at = |s: &str| id(names.iter().position(|n| *n == s).unwrap());
    let point = EncodedDeclaration::new(
        Visibility::Public,
        EncodedType::Struct(EncodedStruct {
            identifier: at("Point"),
            fields: vec![
                EncodedField { identifier: at("x"), reference: EncodedReference::Integer },
                EncodedField { identifier: at("y"), reference: EncodedReference::Plain(at("Label")) },
            ],
        }),
    );
    let label = EncodedDeclaration::new(
        Visibility::Private,
        EncodedType::Newtype(EncodedNewtype {
            identifier: at("Label"),
            reference: EncodedReference::String,
        }),
    );
    let declarations = if point_first { vec![point, label] } else { vec![label, point] };
    ParsedEthos::from_parts(EncodedEthos { declarations }, t)
}

#[test]
fn declared_identities_key_and_shape_of_a_struct() {
    let p = point_and_label(&["Point", "x", "y", "Label"], true);
    let ids = p.declared_identities().unwrap();
    assert_eq!(ids.len(), 2);
    assert_eq!(ids[0].key, DeclaredKey(b"Point".to_vec()));
    assert_eq!(ids[0].intent, IdentityIntent::MintOrBind);
    assert_eq!(
        ids[0].shape.0,
        vec![
            raw(&[0, 0]),
            raw(&[1]),
            raw(&[2, 0, 0, 0, 0, 0, 0, 0]),
            prefixed(b"x"),
            raw(&[1]),
            prefixed(b"y"),
            raw(&[4]),
            prefixed(b"Label"),
        ]
    );
    assert_eq!(ids[1].key, DeclaredKey(b"Label".to_vec()));
    assert_eq!(ids[1].shape.0, vec![raw(&[0, 1]), raw(&[0]), raw(&[0])]);
}

#[test]
fn declared_identities_are_independent_of_name_numbering() {
    let a = point_and_label(&["Point", "x", "y", "Label"], true);
    let b = point_and_label(&["y", "Label", "x", "Point"], true);
    let ia = a.declared_identities().unwrap();
    let ib = b.declared_identities().unwrap();
    assert_eq!(format!("{:?}", ia), format!("{:?}", ib));
}

#[test]
fn declared_shape_of_an_enumeration_and_applications() {
    let t = table(&["Shape", "Circle", "Square", "List"]);
    let shape = EncodedDeclaration::interface(
        DeclarationRole::InterfaceOutput,
        EncodedType::Enumeration(EncodedEnum {
            identifier: id(0),
            variants: vec![
                EncodedVariant {
                    identifier: id(1),
                    payload: Some(EncodedReference::SingleTypeApplication {
                        projection: 3,
                        argument: Box::new(EncodedReference::Bytes),
                    }),
                },
                EncodedVariant { identifier: id(2), payload: None },
                EncodedVariant {
                    identifier: id(3),
                    payload: Some(EncodedReference::MultiTypeApplication {
                        projection: 9,
                        arguments: vec![
                            EncodedReference::Boolean,
                            EncodedReference::ValueApplication { projection: 1, value: 0x0102 },
                        ],
                    }),
                },
            ],
        }),
    );
    let p = ParsedEthos::from_parts(EncodedEthos { declarations: vec![shape] }, t);
    let ids = p.declared_identities().unwrap();
    assert_eq!(
        ids[0].shape.0,
        vec![
            raw(&[2, 0]),
            raw(&[2]),
            raw(&[3, 0, 0, 0, 0, 0, 0, 0]),
            prefixed(b"Circle"),
            raw(&[1]),
            raw(&[5, 3]),
            raw(&[3]),
            prefixed(b"Square"),
            raw(&[0]),
            prefixed(b"List"),
            raw(&[1]),
            raw(&[6, 9]),
            raw(&[2, 0, 0, 0, 0, 0, 0, 0]),
            raw(&[2]),
            raw(&[7, 1]),
            raw(&[2, 1, 0, 0, 0, 0, 0, 0]),
        ]
    );
}

#[test]
fn declared_identities_report_an_unknown_name() {
    let t = table(&["Point"]);
    let point = EncodedDeclaration::new(
        Visibility::Public,
        EncodedType::Newtype(EncodedNewtype {
            identifier: id(0),
            reference: EncodedReference::Plain(id(5)),
        }),
    );
    let p = ParsedEthos::from_parts(EncodedEthos { declarations: vec![point] }, t);
    assert_eq!(
        p.declared_identities().unwrap_err(),
        AuthorityIngestError::Names(NameTableError::UnknownIdentifier(id(5)))
    );
}

#[test]
fn build_universe_sorts_by_local_and_seats_the_scalar_priors_at_the_top() {
    let p = point_and_label(&["Point", "x", "y", "Label"], true);
    let universe = p.build_universe(&bind(&[("Point", 7), ("Label", 3)])).unwrap();
    let m = &universe.members;
    assert_eq!(m.len(), 6);
    assert_eq!(m[0].local, 3);
    assert_eq!(m[0].identifier, id(0));
    assert_eq!(m[1].local, 7);
    assert_eq!(m[1].identifier, id(1));
    let locals: Vec<u16> = m[2..].iter().map(|x| x.local).collect();
    assert_eq!(locals, vec![65535, 65534, 65533, 65532]);
    let slots: Vec<ScalarSlot> = m[2..]
        .iter()
        .map(|x| match &x.kind {
            AssignedKind::ScalarPrimitive(s) => *s,
            _ => panic!("expected a scalar prior"),
        })
        .collect();
    assert_eq!(slots, vec![ScalarSlot::Integer, ScalarSlot::Text, ScalarSlot::Boolean, ScalarSlot::Bytes]);
    // Names: the declarations' first, by local, then their bodies positionally, then the priors.
    let spellings: Vec<String> = (0..universe.names.len())
        .map(|i| universe.names.resolve(id(i)).unwrap().spelling.clone())
        .collect();
    assert_eq!(
        spellings,
        vec!["Label", "Point", "x", "y", "integer", "string", "boolean", "bytes"]
    );
    match &m[1].kind {
        AssignedKind::Declaration(d) => match &d.value {
            EncodedType::Struct(s) => {
                assert_eq!(s.identifier, id(1));
                assert_eq!(s.fields[0].identifier, id(2));
                assert_eq!(s.fields[1].identifier, id(3));
                match &s.fields[1].reference {
                    EncodedReference::Plain(i) => assert_eq!(*i, id(0)),
                    _ => panic!("expected a plain reference"),
                }
            }
            _ => panic!("expected a struct"),
        },
        _ => panic!("expected a declaration"),
    }
}

#[test]
fn build_universe_is_independent_of_parse_order_and_numbering() {
    let bound = bind(&[("Label", 40), ("Point", 12)]);
    let a = point_and_label(&["Point", "x", "y", "Label"], true);
    let b = point_and_label(&["Label", "y", "x", "Point"], false);
    let ua = a.build_universe(&bound).unwrap();
    let ub = b.build_universe(&bound).unwrap();
    assert_eq!(format!("{:?}", ua), format!("{:?}", ub));
}

#[test]
fn build_universe_skips_occupied_locals_for_the_priors() {
    let p = point_and_label(&["Point", "x", "y", "Label"], true);
    let universe = p.build_universe(&bind(&[("Point", 65535), ("Label", 65533)])).unwrap();
    let locals: Vec<u16> = universe.members.iter().map(|x| x.local).collect();
    assert_eq!(locals, vec![65533, 65535, 65534, 65532, 65531, 65530]);
}

#[test]
fn build_universe_takes_the_first_binding_of_a_key() {
    let p = point_and_label(&["Point", "x", "y", "Label"], true);
    let universe = p
        .build_universe(&bind(&[("Label", 5), ("Point", 2), ("Label", 1)]))
        .unwrap();
    assert_eq!(universe.members[0].local, 2);
    assert_eq!(universe.members[1].local, 5);
}

#[test]
fn build_universe_reports_an_unbound_declaration() {
    let p = point_and_label(&["Point", "x", "y", "Label"], true);
    assert_eq!(
        p.build_universe(&bind(&[("Label", 3)])).unwrap_err(),
        AuthorityIngestError::UnboundDeclaration(b"Point".to_vec())
    );
}

#[test]
fn build_universe_reports_an_identity_outside_u16() {
    let p = point_and_label(&["Point", "x", "y", "Label"], true);
    assert_eq!(
        p.build_universe(&bind(&[("Point", 70000), ("Label", 3)])).unwrap_err(),
        AuthorityIngestError::AssignedIdentityOutOfRange(70000)
    );
}

#[test]
fn build_universe_reports_an_unknown_interior_name() {
    let t = table(&["Point", "x"]);
    let point = EncodedDeclaration::new(
        Visibility::Public,
        EncodedType::Struct(EncodedStruct {
            identifier: id(0),
            fields: vec![EncodedField { identifier: id(9), reference: EncodedReference::Integer }],
        }),
    );
    let p = ParsedEthos::from_parts(EncodedEthos { declarations: vec![point] }, t);
    assert_eq!(
        p.build_universe(&bind(&[("Point", 1)])).unwrap_err(),
        AuthorityIngestError::Names(NameTableError::UnknownIdentifier(id(9)))
    );
}

#[test]
fn build_universe_makes_interface_declarations_public() {
    let t = table(&["Request"]);
    let request = EncodedDeclaration {
        role: DeclarationRole::InterfaceInput,
        visibility: Visibility::Private,
        value: EncodedType::Newtype(EncodedNewtype {
            identifier: id(0),
            reference: EncodedReference::Bytes,
        }),
    };
    let p = ParsedEthos::from_parts(EncodedEthos { declarations: vec![request] }, t);
    let universe = p.build_universe(&bind(&[("Request", 0)])).unwrap();
    match &universe.members[0].kind {
        AssignedKind::Declaration(d) => {
            assert_eq!(d.role, DeclarationRole::InterfaceInput);
            assert_eq!(d.visibility, Visibility::Public);
        }
        _ => panic!("expected a declaration"),
    }
}

#[test]
fn name_table_interns_each_spelling_once() {
    let mut t = NameTable::new(IdentifierNamespace::Schema);
    assert_eq!(t.intern(Name::new("a")), id(0));
    assert_eq!(t.intern(Name::new("b")), id(1));
    assert_eq!(t.intern(Name::new("a")), id(0));
    assert_eq!(t.len(), 2);
    assert_eq!(t.resolve(id(1)).unwrap().as_str(), "b");
    assert_eq!(
        t.resolve(id(2)).unwrap_err(),
        NameTableError::UnknownIdentifier(id(2))
    );
}

/// One declaration `name(body)` in a unit whose table holds `names`.
fn single(names: &[&str], role: DeclarationRole, name: &str, reference: EncodedReference) -> ParsedEthos {
    let t = table(names);
    let at = |s: &str| id(names.iter().position(|n| *n == s).unwrap());
    let value = EncodedType::Newtype(EncodedNewtype { identifier: at(name), reference });
    let d = match role {
        DeclarationRole::DataType => EncodedDeclaration::new(Visibility::Private, value),
        _ => EncodedDeclaration::interface(role, value),
    };
    ParsedEthos::from_parts(EncodedEthos { declarations: vec![d] }, t)
}

#[test]
fn declared_key_is_the_name_alone() {
    let a = single(&["Token"], DeclarationRole::DataType, "Token", EncodedReference::String);
    let b = single(&["x", "Token"], DeclarationRole::InterfaceInput, "Token", EncodedReference::Bytes);
    let ia = a.declared_identities().unwrap();
    let ib = b.declared_identities().unwrap();
    assert_eq!(ia[0].key, DeclaredKey(b"Token".to_vec()));
    assert_eq!(ia[0].key, ib[0].key);
    assert_ne!(ia[0].shape, ib[0].shape);
}

#[test]
fn declared_shape_ignores_the_declared_name() {
    let a = single(&["Token"], DeclarationRole::DataType, "Token", EncodedReference::String);
    let b = single(&["Other", "Word"], DeclarationRole::DataType, "Word", EncodedReference::String);
    let ia = a.declared_identities().unwrap();
    let ib = b.declared_identities().unwrap();
    assert_ne!(ia[0].key, ib[0].key);
    assert_eq!(ia[0].shape, ib[0].shape);
    assert_eq!(ia[0].shape.0, vec![raw(&[0, 1]), raw(&[0]), raw(&[0])]);
}

/// Two declarations of one name, `Dup(String)` then `Dup(Bytes)`, under the given numbering.
fn duplicates(names: &[&str]) -> ParsedEthos {
    let t = table(names);
    let at = |s: &str| id(names.iter().position(|n| *n == s).unwrap());
    let first = EncodedDeclaration::new(
        Visibility::Public,
        EncodedType::Newtype(EncodedNewtype { identifier: at("Dup"), reference: EncodedReference::String }),
    );
    let second = EncodedDeclaration::new(
        Visibility::Public,
        EncodedType::Newtype(EncodedNewtype { identifier: at("Dup"), reference: EncodedReference::Bytes }),
    );
    ParsedEthos::from_parts(EncodedEthos { declarations: vec![first, second] }, t)
}

#[test]
fn build_universe_with_a_shared_local_is_independent_of_numbering() {
    let bound = bind(&[("Dup", 9)]);
    let a = duplicates(&["Dup"]);
    let b = duplicates(&["zz", "Dup"]);
    let ua = a.build_universe(&bound).unwrap();
    let ub = b.build_universe(&bound).unwrap();
    assert_eq!(format!("{:?}", ua), format!("{:?}", ub));
    assert_eq!(ua.members[0].local, 9);
    assert_eq!(ua.members[1].local, 9);
}

#[test]
fn declared_shape_tells_a_prefix_of_fields_apart() {
    let t = table(&["Pair", "x", "y"]);
    let one = EncodedDeclaration::new(
        Visibility::Public,
        EncodedType::Struct(EncodedStruct {
            identifier: id(0),
            fields: vec![EncodedField { identifier: id(1), reference: EncodedReference::Integer }],
        }),
    );
    let two = EncodedDeclaration::new(
        Visibility::Public,
        EncodedType::Struct(EncodedStruct {
            identifier: id(0),
            fields: vec![
                EncodedField { identifier: id(1), reference: EncodedReference::Integer },
                EncodedField { identifier: id(2), reference: EncodedReference::Integer },
            ],
        }),
    );
    let p = ParsedEthos::from_parts(EncodedEthos { declarations: vec![one, two] }, t);
    let ids = p.declared_identities().unwrap();
    assert_eq!(ids[0].key, ids[1].key);
    assert_ne!(ids[0].shape, ids[1].shape);
    assert_eq!(ids[0].shape.0[2], raw(&[1, 0, 0, 0, 0, 0, 0, 0]));
    assert_eq!(ids[1].shape.0[2], raw(&[2, 0, 0, 0, 0, 0, 0, 0]));
}

#[test]
fn build_universe_ignores_assignments_to_undeclared_keys() {
    let p = point_and_label(&["Point", "x", "y", "Label"], true);
    let plain = p.build_universe(&bind(&[("Label", 40), ("Point", 12)])).unwrap();
    let noisy = p
        .build_universe(&bind(&[("Ghost", 70000), ("Label", 40), ("Other", 3), ("Point", 12), ("Zed", 1)]))
        .unwrap();
    assert_eq!(format!("{:?}", plain), format!("{:?}", noisy));
}

#[test]
fn declared_identities_follow_parse_order() {
    let a = point_and_label(&["Point", "x", "y", "Label"], true);
    let b = point_and_label(&["Point", "x", "y", "Label"], false);
    let ia = a.declared_identities().unwrap();
    let ib = b.declared_identities().unwrap();
    assert_eq!(ia.len(), 2);
    assert_eq!(format!("{:?}", ia[0]), format!("{:?}", ib[1]));
    assert_eq!(format!("{:?}", ia[1]), format!("{:?}", ib[0]));
    assert_eq!(ib[0].key, DeclaredKey(b"Label".to_vec()));
}
