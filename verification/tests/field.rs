use inspect_pacman_db::field::{FieldName, FIELD_COUNT};

#[test]
fn field_ordinals_follow_declaration_order() {
    assert_eq!(FieldName::FileName.ordinal(), 0);
    assert_eq!(FieldName::Name.ordinal(), 1);
    assert_eq!(FieldName::Version.ordinal(), 3);
    assert_eq!(FieldName::Arch.ordinal(), 13);
    assert_eq!(FieldName::Replaces.ordinal(), 22);
    assert!(FieldName::FileName < FieldName::Name);
    assert!(FieldName::Depends < FieldName::Replaces);
}

#[test]
fn field_from_ordinal_is_the_inverse_of_ordinal() {
    for index in 0..FIELD_COUNT {
        let field = FieldName::from_ordinal(index).unwrap();
        assert_eq!(field.ordinal(), index);
    }
    assert_eq!(FieldName::from_ordinal(FIELD_COUNT), None);
    assert_eq!(FieldName::from_ordinal(usize::MAX), None);
    assert_eq!(FieldName::from_ordinal(4), Some(FieldName::Description));
}

#[test]
fn field_delimiters() {
    assert_eq!(FieldName::FileName.delimiter(), "%FILENAME%");
    assert_eq!(FieldName::Name.delimiter(), "%NAME%");
    assert_eq!(FieldName::Version.delimiter(), "%VERSION%");
    assert_eq!(FieldName::Description.delimiter(), "%DESC%");
    assert_eq!(FieldName::CompressedSize.delimiter(), "%CSIZE%");
    assert_eq!(FieldName::InstalledSize.delimiter(), "%ISIZE%");
    assert_eq!(FieldName::Sha256Sum.delimiter(), "%SHA256SUM%");
    assert_eq!(FieldName::PgpSignature.delimiter(), "%PGPSIG%");
    assert_eq!(FieldName::Arch.delimiter(), "%ARCH%");
    assert_eq!(FieldName::OptDepends.delimiter(), "%OPTDEPENDS%");
}

#[test]
fn field_delimiters_are_distinct_and_not_blank() {
    for a in 0..FIELD_COUNT {
        let first = FieldName::from_ordinal(a).unwrap();
        assert!(first.delimiter().len() > 2);
        assert!(first.delimiter().starts_with('%'));
        assert!(first.delimiter().ends_with('%'));
        for b in 0..a {
            let second = FieldName::from_ordinal(b).unwrap();
            assert_ne!(first.delimiter(), second.delimiter());
        }
    }
}
