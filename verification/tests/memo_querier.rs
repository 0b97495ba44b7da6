use inspect_pacman_db::field::{FieldName, FIELD_COUNT};
use inspect_pacman_db::query::forgetful::ForgetfulQuerier;
use inspect_pacman_db::query::memo::{Cache, MemoQuerier};

const TEXT: &str = "%FILENAME%
foo-1.0-1-any.pkg.tar.zst

%NAME%
foo

%VERSION%
1.0-1

%DESC%

%CSIZE%
1024

%SHA256SUM%
9f86d081884c7d659a2feaa0c55ad015a3bf4f1b2b0b822cd15d6c15b0f00a08

%ARCH%
any

%DEPENDS%
bar
baz>=2

%PROVIDES%
";

#[test]
fn test_cache_fields() {
    for index in 0..FIELD_COUNT {
        let field = &FieldName::from_ordinal(index).unwrap();
        let mut cache = Cache::default();
        assert_eq!(cache.get(field), None);
        cache.add(field, None);
        assert_eq!(cache.get(field), Some(None));
        cache.add(field, Some("foo"));
        assert_eq!(cache.get(field), Some(Some("foo")));
    }
}

#[test]
fn cache_add_changes_one_slot() {
    let mut cache = Cache::default();
    cache.add(&FieldName::Name, Some("foo"));
    cache.add(&FieldName::Url, None);
    for index in 0..FIELD_COUNT {
        let field = FieldName::from_ordinal(index).unwrap();
        let expected = match field {
            FieldName::Name => Some(Some("foo")),
            FieldName::Url => Some(None),
            _ => None,
        };
        assert_eq!(cache.get(&field), expected);
    }
    let copy = cache.clone();
    cache.add(&FieldName::Name, None);
    assert_eq!(cache.get(&FieldName::Name), Some(None));
    assert_eq!(copy.get(&FieldName::Name), Some(Some("foo")));
}

#[test]
fn memo_in_file_order() {
    let mut querier = MemoQuerier::new("%NAME%\nfoo\n\n%VERSION%\n1.0\n\n");
    assert_eq!(querier.query_raw_text_mut(FieldName::Name), Some("foo"));
    assert_eq!(querier.query_raw_text_mut(FieldName::Version), Some("1.0"));
}

#[test]
fn memo_out_of_file_order_misses_the_passed_field() {
    let mut querier = MemoQuerier::new("%NAME%\nfoo\n\n%VERSION%\n1.0\n\n");
    assert_eq!(querier.query_raw_text_mut(FieldName::Version), Some("1.0"));
    assert_eq!(querier.query_raw_text_mut(FieldName::Name), None);
    assert_eq!(querier.query_raw_text_mut(FieldName::Version), Some("1.0"));
    assert_eq!(querier.query_raw_text_mut(FieldName::Name), None);
}

#[test]
fn memo_agrees_with_forgetful_in_file_order() {
    let forgetful = ForgetfulQuerier::new(TEXT);
    let mut memo = MemoQuerier::new(TEXT);
    let order = [
        FieldName::FileName,
        FieldName::Name,
        FieldName::Version,
        FieldName::Description,
        FieldName::Name,
        FieldName::CompressedSize,
        FieldName::Sha256Sum,
        FieldName::Arch,
        FieldName::FileName,
        FieldName::Depends,
        FieldName::Provides,
        FieldName::Url,
        FieldName::Replaces,
        FieldName::Depends,
    ];
    for field in order {
        assert_eq!(
            memo.query_raw_text_mut(field),
            forgetful.query_raw_text(field),
            "{:?}",
            field,
        );
    }
    assert_eq!(memo.query_raw_text_mut(FieldName::Description), Some(""));
    assert_eq!(memo.query_raw_text_mut(FieldName::Provides), Some(""));
    assert_eq!(memo.query_raw_text_mut(FieldName::Depends), Some("bar\nbaz>=2"));
    assert_eq!(memo.query_raw_text_mut(FieldName::Url), None);
}

#[test]
fn memo_same_query_same_answer() {
    let mut querier = MemoQuerier::new(TEXT);
    for index in 0..FIELD_COUNT {
        let field = FieldName::from_ordinal(index).unwrap();
        let first = querier.query_raw_text_mut(field);
        let second = querier.query_raw_text_mut(field);
        assert_eq!(first, second);
    }
}

#[test]
fn memo_decided_field_starts_no_scan() {
    let mut querier = MemoQuerier::new(TEXT);
    assert_eq!(querier.consumed_lines(), 0);
    assert_eq!(querier.query_raw_text_mut(FieldName::Name), Some("foo"));
    assert_eq!(querier.consumed_lines(), 6);
    assert_eq!(querier.query_raw_text_mut(FieldName::Name), Some("foo"));
    assert_eq!(querier.consumed_lines(), 6);
    assert_eq!(querier.query_raw_text_mut(FieldName::FileName), None);
    assert_eq!(querier.consumed_lines(), 25);
    assert_eq!(querier.query_raw_text_mut(FieldName::FileName), None);
    assert_eq!(querier.query_raw_text_mut(FieldName::Name), Some("foo"));
    assert_eq!(querier.consumed_lines(), 25);
}

#[test]
fn memo_scans_each_line_at_most_once() {
    let line_count = TEXT.lines().count();
    let mut querier = MemoQuerier::new(TEXT);
    let mut before = querier.consumed_lines();
    for index in 0..FIELD_COUNT {
        let field = FieldName::from_ordinal(index).unwrap();
        querier.query_raw_text_mut(field);
        let after = querier.consumed_lines();
        assert!(before <= after);
        assert!(after <= line_count);
        before = after;
    }
    assert_eq!(before, line_count);
    for index in (0..FIELD_COUNT).rev() {
        let field = FieldName::from_ordinal(index).unwrap();
        querier.query_raw_text_mut(field);
        assert_eq!(querier.consumed_lines(), line_count);
    }
}

#[test]
fn memo_exhausted_buffer_makes_unseen_fields_absent() {
    let mut querier = MemoQuerier::new("%NAME%\nfoo\n\n%VERSION%\n1.0\n\n");
    assert_eq!(querier.query_raw_text_mut(FieldName::Url), None);
    assert_eq!(querier.consumed_lines(), 6);
    assert_eq!(querier.query_raw_text_mut(FieldName::Name), None);
    assert_eq!(querier.query_raw_text_mut(FieldName::Version), None);
}

#[test]
fn memo_empty_value_is_not_absent() {
    let mut querier = MemoQuerier::new("%NAME%\n\n%VERSION%\n1.0\n\n%URL%");
    assert_eq!(querier.query_raw_text_mut(FieldName::Name), Some(""));
    assert_eq!(querier.query_raw_text_mut(FieldName::Name), Some(""));
    assert_eq!(querier.query_raw_text_mut(FieldName::Version), Some("1.0"));
    assert_eq!(querier.query_raw_text_mut(FieldName::Url), Some(""));
    assert_eq!(querier.query_raw_text_mut(FieldName::Arch), None);
}

#[test]
fn memo_next_delimiter_is_left_for_the_next_scan() {
    let mut querier = MemoQuerier::new("%NAME%\nfoo\n%VERSION%\n1.0\n%URL%\n%ARCH%\nany");
    assert_eq!(querier.query_raw_text_mut(FieldName::Name), Some("foo"));
    assert_eq!(querier.consumed_lines(), 2);
    assert_eq!(querier.query_raw_text_mut(FieldName::Version), Some("1.0"));
    assert_eq!(querier.query_raw_text_mut(FieldName::Url), Some(""));
    assert_eq!(querier.query_raw_text_mut(FieldName::Arch), Some("any"));
    assert_eq!(querier.consumed_lines(), 7);
}

#[test]
fn memo_clone_goes_its_own_way() {
    let mut querier = MemoQuerier::new("%NAME%\nfoo\n\n%VERSION%\n1.0\n\n");
    assert_eq!(querier.query_raw_text_mut(FieldName::Name), Some("foo"));
    let mut copy = querier.clone();
    assert_eq!(copy.query_raw_text_mut(FieldName::Version), Some("1.0"));
    assert_eq!(copy.consumed_lines(), 6);
    assert_eq!(querier.consumed_lines(), 3);
    assert_eq!(querier.query_raw_text_mut(FieldName::Version), Some("1.0"));
}
