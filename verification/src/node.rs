use vstd::prelude::*;

verus! {

/// Syntactic category of a tree node, as far as schema extraction cares:
/// the struct keyword terminal, a bare identifier token, or anything else.
#[derive(Clone, Copy, PartialEq, Eq, Structural, Debug)]
pub enum NodeKind {
    StructMarker,
    Identifier,
    Other,
}

/// One node of a parsed declaration's syntax tree, in document order,
/// reduced to what schema extraction reads: the node's own category, the
/// category of its immediate parent (`Other` for the root, which has none),
/// and the node's source text.
pub struct Node {
    pub kind: NodeKind,
    pub parent_kind: NodeKind,
    pub text: String,
}

/// Mathematical image of a `Node`.
pub ghost struct NodeView {
    pub kind: NodeKind,
    pub parent_kind: NodeKind,
    pub text: Seq<char>,
}

impl View for Node {
    type V = NodeView;

    open spec fn view(&self) -> NodeView {
        NodeView { kind: self.kind, parent_kind: self.parent_kind, text: self.text@ }
    }
}

impl DeepView for Node {
    type V = NodeView;

    open spec fn deep_view(&self) -> NodeView {
        self.view()
    }
}

} // verus!
