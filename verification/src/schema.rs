use vstd::prelude::*;

use crate::node::{Node, NodeKind, NodeView};

verus! {

/// The extracted schema: the struct's name and its field identifiers in
/// document order. Field names are not deduplicated; uniqueness is the
/// declaration author's responsibility.
#[derive(Debug, PartialEq, Eq)]
pub struct Schema {
    pub struct_name: String,
    pub fields: Vec<String>,
}

/// Mathematical image of a `Schema`.
pub ghost struct SchemaView {
    pub struct_name: Seq<char>,
    pub fields: Seq<Seq<char>>,
}

impl View for Schema {
    type V = SchemaView;

    open spec fn view(&self) -> SchemaView {
        SchemaView { struct_name: self.struct_name@, fields: self.fields.deep_view() }
    }
}

impl DeepView for Schema {
    type V = SchemaView;

    open spec fn deep_view(&self) -> SchemaView {
        self.view()
    }
}

/// Why schema extraction failed: the declaration holds no struct keyword, or
/// no identifier token follows the first one.
#[derive(Clone, Copy, PartialEq, Eq, Structural, Debug)]
pub enum SchemaError {
    MalformedSchema,
}

/// Index of the first node at or after `i` whose category is `k`.
pub open spec fn find_kind_from(nodes: Seq<NodeView>, i: int, k: NodeKind) -> Option<int>
    decreases nodes.len() - i,
{
    if i < 0 || i >= nodes.len() {
        None
    } else if nodes[i].kind == k {
        Some(i)
    } else {
        find_kind_from(nodes, i + 1, k)
    }
}

/// The struct's name: the text of the first identifier token that follows the
/// first struct keyword, in document order.
pub open spec fn struct_name_of(nodes: Seq<NodeView>) -> Option<Seq<char>> {
    match find_kind_from(nodes, 0, NodeKind::StructMarker) {
        None => None,
        Some(m) => match find_kind_from(nodes, m + 1, NodeKind::Identifier) {
            None => None,
            Some(j) => Some(nodes[j].text),
        },
    }
}

/// A field node: an identifier token whose immediate parent is not the
/// struct keyword.
pub open spec fn is_field_node(n: NodeView) -> bool {
    n.kind == NodeKind::Identifier && n.parent_kind != NodeKind::StructMarker
}

/// The field names: the texts of all field nodes, in document order.
pub open spec fn fields_of(nodes: Seq<NodeView>) -> Seq<Seq<char>>
    decreases nodes.len(),
{
    if nodes.len() == 0 {
        Seq::empty()
    } else if is_field_node(nodes.last()) {
        fields_of(nodes.drop_last()).push(nodes.last().text)
    } else {
        fields_of(nodes.drop_last())
    }
}

/// The schema a node sequence describes, or nothing when no struct name can
/// be recovered from it.
pub open spec fn schema_of(nodes: Seq<NodeView>) -> Option<SchemaView> {
    match struct_name_of(nodes) {
        None => None,
        Some(name) => Some(SchemaView { struct_name: name, fields: fields_of(nodes) }),
    }
}

/// First node at or after `start` with category `k`, scanning forward.
fn find_kind(nodes: &Vec<Node>, start: usize, k: NodeKind) -> (r: Option<usize>)
    ensures
        match r {
            Some(j) => {
                &&& find_kind_from(nodes.deep_view(), start as int, k) == Some(j as int)
                &&& start <= j < nodes.len()
            },
            None => find_kind_from(nodes.deep_view(), start as int, k) is None,
        },
{
    let ghost s = nodes.deep_view();
    let mut i: usize = start;
    if i > nodes.len() {
        return None;
    }
    while i < nodes.len()
        invariant
            start <= i <= nodes.len(),
            s == nodes.deep_view(),
            find_kind_from(s, start as int, k) == find_kind_from(s, i as int, k),
        decreases nodes.len() - i,
    {
        if nodes[i].kind == k {
            return Some(i);
        }
        assert(find_kind_from(s, i as int, k) == find_kind_from(s, i + 1, k));
        i = i + 1;
    }
    None
}

/// Walks the declaration's nodes and recovers the schema: the first struct
/// keyword begins the name search, the next identifier token names the
/// struct, and every identifier token whose parent is not the struct keyword
/// becomes a field, in document order.
///
/// Fails with `MalformedSchema` exactly when no struct keyword occurs, or
/// none is followed by an identifier token.
pub fn extract_schema(nodes: &Vec<Node>) -> (r: Result<Schema, SchemaError>)
    ensures
        match r {
            Ok(schema) => schema_of(nodes.deep_view()) == Some(schema.deep_view()),
            Err(e) => schema_of(nodes.deep_view()) is None && e == SchemaError::MalformedSchema,
        },
{
    let ghost s = nodes.deep_view();
    let marker = match find_kind(nodes, 0, NodeKind::StructMarker) {
        Some(m) => m,
        None => {
            return Err(SchemaError::MalformedSchema);
        },
    };
    let name_idx = match find_kind(nodes, marker + 1, NodeKind::Identifier) {
        Some(j) => j,
        None => {
            return Err(SchemaError::MalformedSchema);
        },
    };
    let struct_name = nodes[name_idx].text.clone();
    let mut fields: Vec<String> = Vec::new();
    let mut i: usize = 0;
    while i < nodes.len()
        invariant
            i <= nodes.len(),
            s == nodes.deep_view(),
            fields.deep_view() == fields_of(s.take(i as int)),
        decreases nodes.len() - i,
    {
        let ghost prev = fields.deep_view();
        let n = &nodes[i];
        if n.kind == NodeKind::Identifier && !(n.parent_kind == NodeKind::StructMarker) {
            fields.push(n.text.clone());
            assert(fields.deep_view() =~= prev.push(n@.text));
        }
        proof {
            assert(s.take(i + 1).drop_last() =~= s.take(i as int));
            assert(s.take(i + 1).last() == s[i as int]);
        }
        i = i + 1;
    }
    proof {
        assert(s.take(s.len() as int) =~= s);
    }
    let schema = Schema { struct_name, fields };
    Ok(schema)
}

} // verus!
