//! The external regular-expression engine boundary.
//!
//! Parsing a raw pattern string is delegated to `regex_syntax`; its tree is
//! rebuilt as this crate's `Node` so that everything that walks it can be
//! verified in `pattern`. Every item here is trusted: Verus believes the
//! stated contracts and does not read the bodies.

use vstd::prelude::*;

use regex_syntax::hir::{Class, GroupKind, HirKind, Literal};

use crate::pattern::Node;

verus! {

#[verifier::external_type_specification]
#[verifier::external_body]
pub struct ExHir(regex_syntax::hir::Hir);

#[verifier::external_type_specification]
#[verifier::external_body]
pub struct ExGroup(regex_syntax::hir::Group);

#[verifier::external_type_specification]
#[verifier::external_body]
pub struct ExClassUnicode(regex_syntax::hir::ClassUnicode);

#[verifier::external_type_specification]
#[verifier::external_body]
pub struct ExClassBytes(regex_syntax::hir::ClassBytes);

#[verifier::external_type_specification]
#[verifier::external_body]
pub struct ExLiteral(regex_syntax::hir::Literal);

/// What the engine makes of a pattern string: the parsed tree, rebuilt as
/// this crate's `Node`, or `None` when the string is not valid
/// regular-expression syntax. The parse depends on the string alone.
pub uninterp spec fn parsed_of(s: Seq<char>) -> Option<Node>;

/// Relies on `regex_syntax::Parser::parse`: a syntax tree for the pattern
/// string, converted to this crate's `Node`, or `None` on malformed input;
/// a function of the pattern string alone.
#[verifier::external_body]
pub(crate) fn parse_to_node(pattern: &str) -> (r: Option<Node>)
    ensures
        r == parsed_of(pattern@),
{
    match regex_syntax::Parser::new().parse(pattern) {
        Ok(hir) => Some(hir_to_node(&hir)),
        Err(_) => None,
    }
}

/// Relies on `regex_syntax::hir::GroupKind`: the capture index a group
/// carries, if it is a capturing group; one arm per kind.
#[verifier::external_body]
fn group_capture_index(g: &regex_syntax::hir::Group) -> (r: Option<u32>) {
    match &g.kind {
        GroupKind::CaptureIndex(i) => Some(*i),
        GroupKind::CaptureName { index, .. } => Some(*index),
        GroupKind::NonCapturing => None,
    }
}

/// Relies on `regex_syntax::hir::ClassUnicode::iter`: the class's inclusive
/// scalar-value ranges, in order.
#[verifier::external_body]
fn unicode_ranges(c: &regex_syntax::hir::ClassUnicode) -> (r: Vec<(char, char)>) {
    c.iter().map(|cr| (cr.start(), cr.end())).collect()
}

/// Relies on `regex_syntax::hir::ClassBytes::iter`: the class's inclusive
/// byte ranges, in order.
#[verifier::external_body]
fn byte_ranges(c: &regex_syntax::hir::ClassBytes) -> (r: Vec<(u8, u8)>) {
    c.iter().map(|br| (br.start(), br.end())).collect()
}

/// Relies on `regex_syntax::hir::Literal`: the character a literal stands
/// for, one arm per kind; a byte literal stands for that byte's character.
#[verifier::external_body]
fn literal_char(l: &regex_syntax::hir::Literal) -> (r: char) {
    match l {
        Literal::Unicode(c) => *c,
        Literal::Byte(b) => char::from(*b),
    }
}

/// Converts one child of the engine's tree, boxed.
#[verifier::external_body]
fn boxed_node(h: &regex_syntax::hir::Hir) -> (r: Box<Node>) {
    Box::new(hir_to_node(h))
}

/// Converts the children of a concatenation or alternation, in order.
#[verifier::external_body]
fn child_nodes(hs: &[regex_syntax::hir::Hir]) -> (r: Vec<Node>) {
    hs.iter().map(hir_to_node).collect()
}

/// Relies on `regex_syntax::hir::Hir::kind`: rebuilds the engine's tree as
/// this crate's `Node`, one arm per node kind, moving each payload over.
#[verifier::external_body]
pub(crate) fn hir_to_node(h: &regex_syntax::hir::Hir) -> (r: Node) {
    match h.kind() {
        HirKind::Empty => Node::Empty,
        HirKind::Literal(l) => Node::Literal(literal_char(l)),
        HirKind::Class(Class::Unicode(c)) => Node::UnicodeClass(unicode_ranges(c)),
        HirKind::Class(Class::Bytes(c)) => Node::ByteClass(byte_ranges(c)),
        HirKind::Anchor(_) => Node::Anchor,
        HirKind::WordBoundary(_) => Node::WordBoundary,
        HirKind::Repetition(rep) => Node::Repetition(boxed_node(&rep.hir)),
        HirKind::Group(g) => Node::Group(group_capture_index(g), boxed_node(&g.hir)),
        HirKind::Concat(hs) => Node::Concat(child_nodes(hs)),
        HirKind::Alternation(hs) => Node::Alternation(child_nodes(hs)),
    }
}

} // verus!
