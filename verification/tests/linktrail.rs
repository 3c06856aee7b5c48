use siteinfo_extract::extract::{link_trail, link_trail_parsed, LinkTrailError};
use siteinfo_extract::pattern::Node;
use siteinfo_extract::sets::CharSet;
use siteinfo_extract::siteinfo::{General, Query};

fn trail_query(linktrail: &str) -> Query {
    Query {
        namespaces: vec![],
        namespacealiases: vec![],
        extensiontags: vec![],
        protocols: vec![],
        general: General { linktrail: String::from(linktrail) },
        magicwords: vec![],
    }
}

fn char_set_eq(s: &CharSet, expected: &str) -> bool {
    s.len() == expected.chars().count() && expected.chars().all(|c| s.contains(c))
}

#[test]
fn empty_group_yields_empty_set() {
    let s = link_trail(&trail_query("()")).unwrap();
    assert_eq!(s.len(), 0);
}

#[test]
fn lowercase_class_yields_all_letters() {
    let s = link_trail(&trail_query("([a-z]+)")).unwrap();
    assert!(char_set_eq(&s, "abcdefghijklmnopqrstuvwxyz"));
}

#[test]
fn literal_class_alternation_yields_both() {
    let s = link_trail(&trail_query("((?:s|[0-9])+)")).unwrap();
    assert!(char_set_eq(&s, "s0123456789"));
}

#[test]
fn multi_range_class_yields_each_range() {
    let s = link_trail(&trail_query("([a-cx-z]+)")).unwrap();
    assert!(char_set_eq(&s, "abcxyz"));
}

#[test]
fn byte_oriented_class_yields_same_letters() {
    let s = link_trail(&trail_query("((?-u)[a-z]+)")).unwrap();
    assert!(char_set_eq(&s, "abcdefghijklmnopqrstuvwxyz"));
}

#[test]
fn non_capturing_prefix_does_not_shift_group_one() {
    let s = link_trail(&trail_query("(?:q)([0-3]+)")).unwrap();
    assert!(char_set_eq(&s, "0123"));
}

#[test]
fn repeated_concatenation_is_group_invalid() {
    let e = link_trail(&trail_query("((?:ab)+)")).unwrap_err();
    assert_eq!(
        e,
        LinkTrailError::GroupInvalid { pattern: String::from("((?:ab)+)"), index: 1 }
    );
}

#[test]
fn unrepeated_literal_group_is_group_invalid() {
    let e = link_trail(&trail_query("(a)")).unwrap_err();
    assert_eq!(
        e,
        LinkTrailError::GroupInvalid { pattern: String::from("(a)"), index: 1 }
    );
}

#[test]
fn pattern_without_group_is_group_not_found() {
    let e = link_trail(&trail_query("abc")).unwrap_err();
    assert_eq!(
        e,
        LinkTrailError::GroupNotFound { pattern: String::from("abc"), index: 1 }
    );
}

#[test]
fn malformed_pattern_is_a_parse_error() {
    let e = link_trail(&trail_query("(")).unwrap_err();
    assert_eq!(e, LinkTrailError::Pcre { pattern: String::from("(") });
}

#[test]
fn parsed_alternation_reduces_to_union() {
    let node = Node::Group(
        Some(1),
        Box::new(Node::Repetition(Box::new(Node::Alternation(vec![
            Node::Literal('s'),
            Node::UnicodeClass(vec![('0', '9')]),
        ])))),
    );
    let s = link_trail_parsed(&node, "((?:s|[0-9])+)").unwrap();
    assert!(char_set_eq(&s, "s0123456789"));
}

#[test]
fn parsed_concatenation_is_rejected() {
    let node = Node::Group(
        Some(1),
        Box::new(Node::Repetition(Box::new(Node::Concat(vec![
            Node::Literal('a'),
            Node::Literal('b'),
        ])))),
    );
    let e = link_trail_parsed(&node, "((?:ab)+)").unwrap_err();
    assert_eq!(
        e,
        LinkTrailError::GroupInvalid { pattern: String::from("((?:ab)+)"), index: 1 }
    );
}

#[test]
fn parsed_nested_repetition_is_rejected() {
    let node = Node::Group(
        Some(1),
        Box::new(Node::Repetition(Box::new(Node::Repetition(Box::new(
            Node::Literal('a'),
        ))))),
    );
    let e = link_trail_parsed(&node, "((?:a+)+)").unwrap_err();
    assert_eq!(
        e,
        LinkTrailError::GroupInvalid { pattern: String::from("((?:a+)+)"), index: 1 }
    );
}

#[test]
fn parsed_byte_class_covers_range_ends() {
    let node = Node::Group(
        Some(1),
        Box::new(Node::Repetition(Box::new(Node::ByteClass(vec![(b'0', b'4')])))),
    );
    let s = link_trail_parsed(&node, "([0-4]+)").unwrap();
    assert!(char_set_eq(&s, "01234"));
}

#[test]
fn link_trail_is_idempotent() {
    let q = trail_query("([a-z]+)");
    let a = link_trail(&q).unwrap();
    let b = link_trail(&q).unwrap();
    assert_eq!(a.len(), b.len());
    for c in a.elements() {
        assert!(b.contains(*c));
    }
}

#[test]
fn named_group_counts_as_group_one() {
    let s = link_trail(&trail_query("(?P<trail>[0-2]+)")).unwrap();
    assert!(char_set_eq(&s, "012"));
}

#[test]
fn non_ascii_class_covers_code_points() {
    let s = link_trail(&trail_query("([\u{E0}-\u{E4}]+)")).unwrap();
    assert_eq!(s.len(), 5);
    for v in 0xE0u32..=0xE4u32 {
        assert!(s.contains(char::from_u32(v).unwrap()));
    }
    assert!(!s.contains(char::from_u32(0xE5).unwrap()));
}
