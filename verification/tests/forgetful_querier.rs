use inspect_pacman_db::field::{FieldName, FIELD_COUNT};
use inspect_pacman_db::lines::LineScanner;
use inspect_pacman_db::query::common::{is_delimiter_line, query_raw_text_from, same_bytes};
use inspect_pacman_db::query::forgetful::ForgetfulQuerier;

const TEXT: &str = "%FILENAME%
gnome-shell-1:46.2-1-x86_64.pkg.tar.zst

%NAME%
gnome-shell

%BASE%
gnome-shell

%VERSION%
1:46.2-1

%DESC%
Next generation desktop shell

%GROUPS%
gnome

%CSIZE%
1836594

%ISIZE%
11644346

%SHA256SUM%
a3e7f9f1d6b5c4e8a2b0c1d2e3f405162738495a6b7c8d9e0f1a2b3c4d5e6f70

%URL%
https://wiki.gnome.org/Projects/GnomeShell

%LICENSE%
GPL-3.0-or-later

%ARCH%
x86_64

%BUILDDATE%
1716570000

%PACKAGER%
Some Packager <packager@example.org>

%DEPENDS%
accountsservice
gcr-4
gjs
glib2
mutter

%OPTDEPENDS%
evolution-data-server: Evolution calendar integration
gnome-control-center: System settings

%MAKEDEPENDS%
git
meson
sassc

";

#[test]
fn query() {
    let querier = ForgetfulQuerier::new(TEXT);

    assert_eq!(querier.query_raw_text(FieldName::Name), Some("gnome-shell"));

    assert_eq!(
        querier.query_raw_text(FieldName::FileName),
        Some("gnome-shell-1:46.2-1-x86_64.pkg.tar.zst"),
    );

    let mut architecture = querier.query_raw_text(FieldName::Arch).unwrap().lines();
    assert_eq!(architecture.next(), Some("x86_64"));
    assert_eq!(architecture.next(), None);

    assert_eq!(
        querier.query_raw_text(FieldName::Description),
        Some("Next generation desktop shell"),
    );
}

#[test]
fn forgetful_answers_in_any_order() {
    let querier = ForgetfulQuerier::new("%NAME%\nfoo\n\n%VERSION%\n1.0\n\n");
    assert_eq!(querier.query_raw_text(FieldName::Version), Some("1.0"));
    assert_eq!(querier.query_raw_text(FieldName::Name), Some("foo"));
    assert_eq!(querier.query_raw_text(FieldName::Version), Some("1.0"));
}

#[test]
fn forgetful_same_query_same_answer() {
    let querier = ForgetfulQuerier::new(TEXT);
    for index in 0..FIELD_COUNT {
        let field = FieldName::from_ordinal(index).unwrap();
        let first = querier.query_raw_text(field);
        let second = querier.query_raw_text(field);
        assert_eq!(first, second);
    }
}

#[test]
fn forgetful_value_of_several_lines() {
    let querier = ForgetfulQuerier::new(TEXT);
    assert_eq!(
        querier.query_raw_text(FieldName::Depends),
        Some("accountsservice\ngcr-4\ngjs\nglib2\nmutter"),
    );
    assert_eq!(
        querier.query_raw_text(FieldName::MakeDepends),
        Some("git\nmeson\nsassc"),
    );
}

#[test]
fn forgetful_absent_field() {
    let querier = ForgetfulQuerier::new(TEXT);
    assert_eq!(querier.query_raw_text(FieldName::Md5Sum), None);
    assert_eq!(querier.query_raw_text(FieldName::Replaces), None);
    assert_eq!(ForgetfulQuerier::new("").query_raw_text(FieldName::Name), None);
    assert_eq!(
        ForgetfulQuerier::new("NAME\nfoo\n").query_raw_text(FieldName::Name),
        None,
    );
}

#[test]
fn forgetful_empty_value_is_not_absent() {
    let querier = ForgetfulQuerier::new("%NAME%\n\n%VERSION%\n1.0\n\n");
    assert_eq!(querier.query_raw_text(FieldName::Name), Some(""));
    assert_eq!(querier.query_raw_text(FieldName::Version), Some("1.0"));
    assert_eq!(querier.query_raw_text(FieldName::Url), None);
}

#[test]
fn forgetful_delimiter_at_the_end_has_an_empty_value() {
    assert_eq!(
        ForgetfulQuerier::new("%NAME%\nfoo\n\n%VERSION%").query_raw_text(FieldName::Version),
        Some(""),
    );
    assert_eq!(
        ForgetfulQuerier::new("%VERSION%\n").query_raw_text(FieldName::Version),
        Some(""),
    );
}

#[test]
fn forgetful_next_delimiter_ends_a_value() {
    let querier = ForgetfulQuerier::new("%NAME%\nfoo\n%VERSION%\n1.0\n%URL%\n%ARCH%\nany");
    assert_eq!(querier.query_raw_text(FieldName::Name), Some("foo"));
    assert_eq!(querier.query_raw_text(FieldName::Version), Some("1.0"));
    assert_eq!(querier.query_raw_text(FieldName::Url), Some(""));
    assert_eq!(querier.query_raw_text(FieldName::Arch), Some("any"));
}

#[test]
fn forgetful_value_without_final_line_ending() {
    let querier = ForgetfulQuerier::new("%DEPENDS%\na\nb");
    assert_eq!(querier.query_raw_text(FieldName::Depends), Some("a\nb"));
}

#[test]
fn forgetful_first_block_wins() {
    let querier = ForgetfulQuerier::new("%NAME%\nfirst\n\n%NAME%\nsecond\n\n");
    assert_eq!(querier.query_raw_text(FieldName::Name), Some("first"));
}

#[test]
fn forgetful_value_is_a_slice_of_the_buffer() {
    let text = String::from("%NAME%\nfoo\n\n%DEPENDS%\na\r\nb\r\n\r\n");
    let querier = ForgetfulQuerier::new(&text);
    let name = querier.query_raw_text(FieldName::Name).unwrap();
    assert_eq!(name.as_ptr(), text[7..].as_ptr());
    let depends = querier.query_raw_text(FieldName::Depends).unwrap();
    assert_eq!(depends, "a\r\nb");
    assert_eq!(depends.as_ptr(), text[22..].as_ptr());
    let empty = ForgetfulQuerier::new(&text[..6]).query_raw_text(FieldName::Name).unwrap();
    assert_eq!(empty, "");
}

#[test]
fn forgetful_lines_that_name_no_field_are_value_lines() {
    let querier = ForgetfulQuerier::new("%NAME%\n%UNKNOWN%\n%name%\n NAME \n\n%VERSION% \n2\n");
    assert_eq!(
        querier.query_raw_text(FieldName::Name),
        Some("%UNKNOWN%\n%name%\n NAME "),
    );
    assert_eq!(querier.query_raw_text(FieldName::Version), None);
}

#[test]
fn forgetful_text_outside_blocks_is_skipped() {
    let querier = ForgetfulQuerier::new("junk\n\n%NAME%\nfoo\n\nmore junk\n%VERSION%\n1\n");
    assert_eq!(querier.query_raw_text(FieldName::Name), Some("foo"));
    assert_eq!(querier.query_raw_text(FieldName::Version), Some("1"));
}

#[test]
fn forgetful_value_with_wide_characters() {
    let querier = ForgetfulQuerier::new("%DESC%\nGr\u{fc}\u{df}e \u{2014} \u{1f600}\n\n%NAME%\n\u{e9}\n");
    assert_eq!(
        querier.query_raw_text(FieldName::Description),
        Some("Gr\u{fc}\u{df}e \u{2014} \u{1f600}"),
    );
    assert_eq!(querier.query_raw_text(FieldName::Name), Some("\u{e9}"));
}

#[test]
fn scan_passes_the_block_and_its_blank_line() {
    let mut lines = LineScanner::new("%NAME%\nfoo\n\n%VERSION%\n1.0\n\n");
    assert_eq!(query_raw_text_from(&mut lines, FieldName::Name), Some("foo"));
    assert_eq!(lines.consumed(), 3);
    assert_eq!(query_raw_text_from(&mut lines, FieldName::Version), Some("1.0"));
    assert_eq!(lines.consumed(), 6);
    assert_eq!(query_raw_text_from(&mut lines, FieldName::Name), None);
    assert_eq!(lines.consumed(), 6);
}

#[test]
fn scan_leaves_the_next_delimiter_in_place() {
    let mut lines = LineScanner::new("%NAME%\nfoo\n%VERSION%\n1.0\n");
    assert_eq!(query_raw_text_from(&mut lines, FieldName::Name), Some("foo"));
    assert_eq!(lines.consumed(), 2);
    assert_eq!(query_raw_text_from(&mut lines, FieldName::Version), Some("1.0"));
    assert_eq!(lines.consumed(), 4);
}

#[test]
fn scan_without_block_passes_all_lines() {
    let mut lines = LineScanner::new("%NAME%\nfoo\n\n%VERSION%\n1.0\n\n");
    assert_eq!(query_raw_text_from(&mut lines, FieldName::Url), None);
    assert_eq!(lines.consumed(), 6);
    assert_eq!(query_raw_text_from(&mut lines, FieldName::Name), None);
}

#[test]
fn delimiter_lines_are_told_from_other_lines() {
    let bytes = "%NAME%\nfoo\n%NOPE%\n%REPLACES%".as_bytes();
    let line = |start, end| inspect_pacman_db::lines::Line { start, end };
    assert!(is_delimiter_line(bytes, line(0, 6)));
    assert!(!is_delimiter_line(bytes, line(0, 5)));
    assert!(!is_delimiter_line(bytes, line(7, 10)));
    assert!(!is_delimiter_line(bytes, line(11, 17)));
    assert!(is_delimiter_line(bytes, line(18, 28)));
    assert!(!is_delimiter_line(bytes, line(3, 3)));
}

#[test]
fn same_bytes_compares_a_part_with_a_pattern() {
    let bytes = "abcabd".as_bytes();
    assert!(same_bytes(bytes, 0, 3, "abc".as_bytes()));
    assert!(!same_bytes(bytes, 3, 6, "abc".as_bytes()));
    assert!(same_bytes(bytes, 3, 6, "abd".as_bytes()));
    assert!(!same_bytes(bytes, 0, 2, "abc".as_bytes()));
    assert!(same_bytes(bytes, 2, 2, "".as_bytes()));
    assert!(!same_bytes(bytes, 0, 6, "".as_bytes()));
}
