use xml_parsing::attrs::{parse_attributes, MetaData, TagParseError};
use xml_parsing::tag::{decompose, TagType};

#[test]
fn classification_is_idempotent() {
    let first = TagType::check_tag_type("a b=\"c\"/");
    let second = TagType::check_tag_type("a b=\"c\"/");
    assert_eq!(first, second);
    assert_eq!(first, TagType::SelfClose);
}

#[test]
fn classifier_priority_close_beats_self_close() {
    assert_eq!(TagType::check_tag_type("/a/"), TagType::Close);
    assert_eq!(TagType::check_tag_type(""), TagType::Open);
    assert_eq!(TagType::check_tag_type("/"), TagType::Close);
}

#[test]
fn three_distinct_keys_give_three_entries() {
    let meta = parse_attributes("a=1 b=\"2\" c='3'");
    assert_eq!(meta.len(), 3);
    assert_eq!(meta.get("a").unwrap(), "1");
    assert_eq!(meta.get("b").unwrap(), "2");
    assert_eq!(meta.get("c").unwrap(), "3");
}

#[test]
fn duplicate_key_last_occurrence_wins() {
    let meta = parse_attributes("x=1 x=2");
    assert_eq!(meta.len(), 1);
    assert_eq!(meta.get("x").unwrap(), "2");
}

#[test]
fn whitespace_around_equals_is_ignored() {
    let meta = parse_attributes("k  =   \"v\"");
    assert_eq!(meta.len(), 1);
    assert_eq!(meta.get("k").unwrap(), "v");
}

#[test]
fn quoted_value_may_hold_whitespace() {
    let meta = parse_attributes("k=\"a b  c\" l='x y'");
    assert_eq!(meta.get("k").unwrap(), "a b  c");
    assert_eq!(meta.get("l").unwrap(), "x y");
}

#[test]
fn unterminated_quote_yields_no_pair() {
    let meta = parse_attributes("k=\"x");
    assert_eq!(meta.len(), 0);
    assert!(meta.get("k").is_none());
}

#[test]
fn malformed_fragments_are_skipped_silently() {
    let meta = parse_attributes("= broken k=v =?= j='2'");
    assert_eq!(meta.len(), 2);
    assert_eq!(meta.get("k").unwrap(), "v");
    assert_eq!(meta.get("j").unwrap(), "2");
}

#[test]
fn try_parse_rejects_empty_input() {
    let err = MetaData::try_parse("").unwrap_err();
    assert!(matches!(err, TagParseError::TagMetaDataKind(_)));
    assert_eq!(err.message(), "Failed to Parse tag metadata: Input is empty");
}

#[test]
fn try_parse_accepts_nonempty_input() {
    let meta = MetaData::try_parse("x=1").unwrap();
    assert_eq!(meta.len(), 1);
    assert_eq!(meta.get("x").unwrap(), "1");
}

#[test]
fn decompose_failure_carries_interior_text() {
    let err = decompose("1bad", TagType::Open).unwrap_err();
    match err {
        TagParseError::TagNameKind(text) => assert_eq!(text, "1bad"),
        TagParseError::TagMetaDataKind(_) => panic!("wrong error variant"),
    }
}

#[test]
fn underscore_may_start_a_name() {
    let tag = decompose("_a1 x=1", TagType::Open).unwrap();
    assert_eq!(tag.name, "_a1");
    assert_eq!(tag.metadata.as_ref().unwrap().get("x").unwrap(), "1");
}

#[test]
fn digits_allowed_inside_names_and_keys() {
    let tag = decompose("h1 k2='v'", TagType::Open).unwrap();
    assert_eq!(tag.name, "h1");
    assert_eq!(tag.metadata.as_ref().unwrap().get("k2").unwrap(), "v");
}

#[test]
fn bare_value_stops_at_non_word() {
    let meta = parse_attributes("k=ab.cd");
    assert_eq!(meta.len(), 1);
    assert_eq!(meta.get("k").unwrap(), "ab");
}
