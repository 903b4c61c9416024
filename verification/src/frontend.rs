use vstd::prelude::*;

use cairo_lang_parser::utils::SimpleParserDatabase;
use cairo_lang_syntax::node::kind::SyntaxKind;

use crate::node::{Node, NodeKind, NodeView};

verus! {

/// The nodes of the syntax tree that the external parser builds from a
/// declaration text, in document order, each reduced to its category, its
/// parent's category and its text. Parsing is a pure function of the text,
/// so the sequence has a name here and is reached only through
/// `parse_declaration`.
pub uninterp spec fn parsed_nodes(code: Seq<char>) -> Seq<NodeView>;

/// Relies on cairo_lang_parser's `SimpleParserDatabase::parse_virtual_with_diagnostics`
/// and on cairo_lang_syntax's `SyntaxNode`: `descendants` enumerates the subtree's
/// nodes in document (preorder) order, `kind` and `parent` read a node's category
/// and immediate parent, `get_text` its source text, and all of them are pure in
/// the declaration text. `TerminalStruct` is the struct keyword terminal and
/// `TokenIdentifier` a bare identifier token; the root, which has no parent, is
/// recorded with `Other` in the parent's place.
#[verifier::external_body]
pub(crate) fn parse_declaration(code: &str) -> (nodes: Vec<Node>)
    ensures
        nodes.deep_view() == parsed_nodes(code@),
{
    let db = SimpleParserDatabase::default();
    let (root, _diagnostics) = db.parse_virtual_with_diagnostics(code);
    let classify = |k: SyntaxKind| match k {
        SyntaxKind::TerminalStruct => NodeKind::StructMarker,
        SyntaxKind::TokenIdentifier => NodeKind::Identifier,
        _ => NodeKind::Other,
    };
    let mut nodes: Vec<Node> = Vec::new();
    for n in root.descendants(&db) {
        let parent_kind = n.parent(&db).map_or(NodeKind::Other, |p| classify(p.kind(&db)));
        let text = n.get_text(&db).to_string();
        nodes.push(Node { kind: classify(n.kind(&db)), parent_kind, text });
    }
    nodes
}

} // verus!
