use xml_parsing::scanner::{detect_tag, scan};
use xml_parsing::tag::{decompose, TagType};

#[test]
fn empty_document_reports_zero() {
    let report = scan("");
    assert_eq!(report.opening, 0);
    assert_eq!(report.closing, 0);
    assert_eq!(report.self_closing, 0);
    assert_eq!(report.unparsed, 0);
    assert_eq!(report.tags.len(), 0);
    assert_eq!(report.unparsed_spans.len(), 0);
}

#[test]
fn document_without_angle_pairs_reports_zero() {
    let report = scan("plain prose, no markup at all");
    assert_eq!(report.opening, 0);
    assert_eq!(report.closing, 0);
    assert_eq!(report.self_closing, 0);
    assert_eq!(report.unparsed, 0);
}

#[test]
fn gt_before_lt_is_no_pair() {
    let report = scan("a > b then < c");
    assert_eq!(report.opening, 0);
    assert_eq!(report.closing, 0);
    assert_eq!(report.self_closing, 0);
    assert_eq!(report.unparsed, 0);
}

#[test]
fn simple_opening_tag() {
    let kind = TagType::check_tag_type("a");
    assert_eq!(kind, TagType::Open);
    let tag = decompose("a", kind).unwrap();
    assert_eq!(tag.name, "a");
    assert!(tag.metadata.is_none());
    assert_eq!(tag.kind, TagType::Open);
}

#[test]
fn opening_tag_with_mixed_quotes() {
    let interior = "a x=\"1\" y='2'";
    let kind = TagType::check_tag_type(interior);
    assert_eq!(kind, TagType::Open);
    let tag = decompose(interior, kind).unwrap();
    assert_eq!(tag.name, "a");
    let meta = tag.metadata.as_ref().unwrap();
    assert_eq!(meta.len(), 2);
    assert_eq!(meta.get("x").unwrap(), "1");
    assert_eq!(meta.get("y").unwrap(), "2");
}

#[test]
fn simple_closing_tag() {
    let kind = TagType::check_tag_type("/a");
    assert_eq!(kind, TagType::Close);
    let tag = decompose("/a", kind).unwrap();
    assert_eq!(tag.name, "a");
    assert!(tag.metadata.is_none());
    assert_eq!(tag.kind, TagType::Close);
}

#[test]
fn closing_tag_ignores_trailing_noise() {
    let kind = TagType::check_tag_type("/a extra ignored text");
    assert_eq!(kind, TagType::Close);
    let tag = decompose("/a extra ignored text", kind).unwrap();
    assert_eq!(tag.name, "a");
    assert!(tag.metadata.is_none());
}

#[test]
fn simple_self_closing_tag() {
    let kind = TagType::check_tag_type("a/");
    assert_eq!(kind, TagType::SelfClose);
    let tag = decompose("a/", kind).unwrap();
    assert_eq!(tag.name, "a");
    assert!(tag.metadata.is_none());
    assert_eq!(tag.kind, TagType::SelfClose);
}

#[test]
fn self_closing_tag_with_attribute_keeps_slash_out() {
    let report = scan("<a k=\"v\"/>");
    assert_eq!(report.self_closing, 1);
    assert_eq!(report.opening, 0);
    assert_eq!(report.unparsed, 0);
    let tag = &report.tags[0];
    assert_eq!(tag.name, "a");
    assert_eq!(tag.kind, TagType::SelfClose);
    let meta = tag.metadata.as_ref().unwrap();
    assert_eq!(meta.len(), 1);
    assert_eq!(meta.get("k").unwrap(), "v");
}

#[test]
fn leading_digit_name_is_unparsed() {
    let report = scan("<1bad>");
    assert_eq!(report.unparsed, 1);
    assert_eq!(report.opening, 0);
    assert_eq!(report.closing, 0);
    assert_eq!(report.self_closing, 0);
    assert_eq!(report.unparsed_spans.len(), 1);
    assert_eq!(report.unparsed_spans[0], "1bad");
}

#[test]
fn three_openers_counted() {
    let report = scan("<a><b><c>");
    assert_eq!(report.opening, 3);
    assert_eq!(report.closing, 0);
    assert_eq!(report.unparsed, 0);
    assert_eq!(report.tags.len(), 3);
    assert_eq!(report.tags[0].name, "a");
    assert_eq!(report.tags[1].name, "b");
    assert_eq!(report.tags[2].name, "c");
}

#[test]
fn mixed_document_counts() {
    let report = scan("text <a x=\"1\"> more </a> and <br/> done <>");
    assert_eq!(report.opening, 1);
    assert_eq!(report.closing, 1);
    assert_eq!(report.self_closing, 1);
    assert_eq!(report.unparsed, 1);
    assert_eq!(report.unparsed_spans[0], "");
}

#[test]
fn detect_tag_finds_interiors_in_order() {
    let interiors = detect_tag("x<a>y</b>z");
    assert_eq!(interiors.len(), 2);
    assert_eq!(interiors[0], "a");
    assert_eq!(interiors[1], "/b");
}

#[test]
fn dangling_open_bracket_yields_no_span() {
    let interiors = detect_tag("<abc");
    assert_eq!(interiors.len(), 0);
}

#[test]
fn adjacent_tags_are_independent_spans() {
    let interiors = detect_tag("<a></a>");
    assert_eq!(interiors.len(), 2);
    assert_eq!(interiors[0], "a");
    assert_eq!(interiors[1], "/a");
}

#[test]
fn empty_interior_is_unparsed() {
    let report = scan("</>");
    assert_eq!(report.unparsed, 1);
    assert_eq!(report.closing, 0);
    assert_eq!(report.unparsed_spans[0], "/");
}

#[test]
fn tag_name_never_appears_as_attribute_key() {
    let tag = decompose("a a=\"1\" b=\"2\"", TagType::Open).unwrap();
    assert_eq!(tag.name, "a");
    let meta = tag.metadata.as_ref().unwrap();
    assert_eq!(meta.len(), 1);
    assert!(meta.get("a").is_none());
    assert_eq!(meta.get("b").unwrap(), "2");
}

#[test]
fn trailing_whitespace_only_means_absent_attributes() {
    let tag = decompose("a   ", TagType::Open).unwrap();
    assert_eq!(tag.name, "a");
    assert!(tag.metadata.is_none());
}

#[test]
fn attribute_text_with_no_match_is_empty_mapping_not_absent() {
    let tag = decompose("a -", TagType::Open).unwrap();
    assert_eq!(tag.name, "a");
    let meta = tag.metadata.as_ref().unwrap();
    assert_eq!(meta.len(), 0);
}
