use authority_ingest::declaration::{
    DeclarationRole, EncodedDeclaration, EncodedEnum, EncodedNewtype, EncodedReference,
    EncodedType, Visibility,
};
use authority_ingest::names::Identifier;
use authority_ingest::shape::{to_le_bytes, HashInput, ShapeTranscript};
use authority_ingest::sort::sort_by_local;
use authority_ingest::universe::BuiltinReference;

#[test]
fn sort_by_local_is_stable() {
    let v = vec![(3u16, 0usize), (1, 1), (3, 2), (2, 3), (1, 4)];
    assert_eq!(sort_by_local(&v), vec![(1, 1), (1, 4), (2, 3), (3, 0), (3, 2)]);
    assert_eq!(sort_by_local(&Vec::new()), Vec::<(u16, usize)>::new());
}

#[test]
fn to_le_bytes_orders_least_significant_first() {
    assert_eq!(to_le_bytes(0x0807060504030201), [1, 2, 3, 4, 5, 6, 7, 8]);
    assert_eq!(to_le_bytes(0), [0; 8]);
}

#[test]
fn transcript_records_updates_in_order() {
    let mut t = ShapeTranscript::unprimed();
    t.update_raw(&[1, 2]);
    t.update_length_prefixed(b"ab");
    assert_eq!(
        t.inputs,
        vec![HashInput::Raw(vec![1, 2]), HashInput::LengthPrefixed(b"ab".to_vec())]
    );
}

#[test]
fn declaration_constructors_and_identifier() {
    let d = EncodedDeclaration::new(
        Visibility::Private,
        EncodedType::Newtype(EncodedNewtype {
            identifier: Identifier { index: 4 },
            reference: EncodedReference::Bytes,
        }),
    );
    assert_eq!(d.role, DeclarationRole::DataType);
    assert_eq!(d.visibility, Visibility::Private);
    assert_eq!(d.identifier(), Identifier { index: 4 });
    let i = EncodedDeclaration::interface(
        DeclarationRole::InterfaceOutput,
        EncodedType::Enumeration(EncodedEnum { identifier: Identifier { index: 2 }, variants: vec![] }),
    );
    assert_eq!(i.role, DeclarationRole::InterfaceOutput);
    assert_eq!(i.visibility, Visibility::Public);
    assert_eq!(i.identifier(), Identifier { index: 2 });
}

#[test]
fn builtin_spellings() {
    assert_eq!(BuiltinReference::Integer.spelling(), "integer");
    assert_eq!(BuiltinReference::String.spelling(), "string");
    assert_eq!(BuiltinReference::Boolean.spelling(), "boolean");
    assert_eq!(BuiltinReference::Bytes.spelling(), "bytes");
}
