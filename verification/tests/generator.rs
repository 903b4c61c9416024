use cairo_json_derive::node::{Node, NodeKind};
use cairo_json_derive::schema::{extract_schema, Schema, SchemaError};
use cairo_json_derive::emit::emit_impl;
use cairo_json_derive::json_deserialize;

fn node(kind: NodeKind, parent_kind: NodeKind, text: &str) -> Node {
    Node { kind, parent_kind, text: text.to_string() }
}

#[test]
fn extract_point_schema() {
    let nodes = vec![
        node(NodeKind::Other, NodeKind::Other, "struct Point { x, y }"),
        node(NodeKind::StructMarker, NodeKind::Other, "struct"),
        node(NodeKind::Identifier, NodeKind::StructMarker, "Point"),
        node(NodeKind::Identifier, NodeKind::Other, "x"),
        node(NodeKind::Identifier, NodeKind::Other, "y"),
    ];
    let schema = extract_schema(&nodes).unwrap();
    assert_eq!(schema.struct_name, "Point");
    assert_eq!(schema.fields, vec!["x".to_string(), "y".to_string()]);
}

#[test]
fn extract_without_struct_keyword_fails() {
    let nodes = vec![
        node(NodeKind::Other, NodeKind::Other, "x"),
        node(NodeKind::Identifier, NodeKind::Other, "x"),
    ];
    assert_eq!(extract_schema(&nodes), Err(SchemaError::MalformedSchema));
}

#[test]
fn extract_struct_keyword_without_name_fails() {
    let nodes = vec![node(NodeKind::StructMarker, NodeKind::Other, "struct")];
    assert_eq!(extract_schema(&nodes), Err(SchemaError::MalformedSchema));
}

#[test]
fn extract_empty_tree_fails() {
    let nodes: Vec<Node> = vec![];
    assert_eq!(extract_schema(&nodes), Err(SchemaError::MalformedSchema));
}

#[test]
fn extract_only_first_struct_marker_names() {
    // An identifier before the first marker still counts as a field; the
    // name is the first identifier after the first marker.
    let nodes = vec![
        node(NodeKind::Identifier, NodeKind::Other, "early"),
        node(NodeKind::StructMarker, NodeKind::Other, "struct"),
        node(NodeKind::Other, NodeKind::Other, "("),
        node(NodeKind::Identifier, NodeKind::StructMarker, "Late"),
        node(NodeKind::Identifier, NodeKind::Other, "f"),
    ];
    let schema = extract_schema(&nodes).unwrap();
    assert_eq!(schema.struct_name, "Late");
    assert_eq!(schema.fields, vec!["early".to_string(), "f".to_string()]);
}

#[test]
fn emit_point_has_dispatch_and_validation() {
    let schema = Schema {
        struct_name: "Point".to_string(),
        fields: vec!["x".to_string(), "y".to_string()],
    };
    let text = emit_impl(&schema);
    assert!(text.starts_with(
        "\n        impl PointJsonDeserialize of serde_json::JsonDeserialize<Point> {"
    ));
    assert!(text.contains("fn deserialize(data: @ByteArray, ref pos: usize) -> Result<Point, ByteArray> {"));
    assert!(text.contains("let mut result = Point { x: \"\", y: \"\" };"));
    assert!(text.contains("let mut x_parsed = false;"));
    assert!(text.contains("let mut y_parsed = false;"));
    assert!(text.contains("else if field_name == \"x\" {"));
    assert!(text.contains("else if field_name == \"y\" {"));
    assert!(text.contains("result.x = value;"));
    assert!(text.contains("x_parsed = true;"));
    assert!(text.contains("} else if !(x_parsed && y_parsed) {"));
    assert!(text.contains("Result::Err(\"Expected object\")"));
    assert!(text.contains("error = \"Expected ':'\";"));
    assert!(text.contains("Result::Err(\"Missing required field\")"));
    assert!(text.contains("Result::Err(\"Expected closing brace\")"));
    // One dispatch branch per field, plus the catch-all discard branch.
    assert_eq!(text.matches("else if field_name == ").count(), 2);
    assert_eq!(text.matches("match json_parser::parse_string(data, ref pos) {").count(), 2);
}

#[test]
fn emit_empty_schema_validation_is_vacuous() {
    let schema = Schema { struct_name: "Empty".to_string(), fields: vec![] };
    let text = emit_impl(&schema);
    assert!(text.contains("let mut result = Empty {  };"));
    assert!(text.contains("} else if !(true) {"));
    assert!(!text.contains("else if field_name == "));
    assert!(!text.contains("_parsed = false;"));
}

#[test]
fn emit_single_field_validation_has_no_conjunction() {
    let schema = Schema { struct_name: "One".to_string(), fields: vec!["a".to_string()] };
    let text = emit_impl(&schema);
    assert!(text.contains("} else if !(a_parsed) {"));
    assert!(text.contains("let mut result = One { a: \"\" };"));
}

#[test]
fn derive_from_cairo_declaration() {
    let text = json_deserialize("struct Point { x: felt252, y: felt252 }").unwrap();
    assert!(text.contains("impl PointJsonDeserialize of serde_json::JsonDeserialize<Point> {"));
    assert!(text.contains("else if field_name == \"x\" {"));
    assert!(text.contains("else if field_name == \"y\" {"));
    assert!(text.contains("x_parsed"));
    assert!(text.contains("y_parsed"));
}

#[test]
fn derive_without_struct_fails() {
    assert_eq!(
        json_deserialize("fn main() { }"),
        Err(SchemaError::MalformedSchema)
    );
}
