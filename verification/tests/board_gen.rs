use legend_keeper_mcp::lk::board_gen::{color_for_type, geo_for_type, graph_to_board_content, validate_graph, GraphEdge, GraphNode};
use legend_keeper_mcp::lk::builder::validate_board_content_pub;

fn node(id: &str, label: &str, node_type: &str) -> GraphNode {
    GraphNode { id: id.into(), label: label.into(), node_type: node_type.into() }
}

fn edge(from: &str, to: &str, label: Option<&str>) -> GraphEdge {
    GraphEdge { from: from.into(), to: to.into(), label: label.map(|s| s.to_string()) }
}

#[test]
fn test_validate_empty_nodes() {
    let result = validate_graph(&[], &[]);
    assert!(result.is_err());
    assert!(result.unwrap_err().to_string().contains("At least one node"));
}

#[test]
fn test_validate_duplicate_ids() {
    let nodes = vec![node("a", "A", "person"), node("a", "B", "person")];
    let result = validate_graph(&nodes, &[]);
    assert!(result.is_err());
    assert!(result.unwrap_err().to_string().contains("Duplicate node ID: a"));
}

#[test]
fn test_validate_unknown_node_type() {
    let nodes = vec![node("a", "A", "dragon")];
    let result = validate_graph(&nodes, &[]);
    assert!(result.is_err());
    assert!(result.unwrap_err().to_string().contains("Unknown node_type: dragon"));
}

#[test]
fn test_validate_bad_edge_from() {
    let nodes = vec![node("a", "A", "person")];
    let edges = vec![edge("missing", "a", None)];
    let result = validate_graph(&nodes, &edges);
    assert!(result.is_err());
    assert!(result.unwrap_err().to_string().contains("Edge references unknown node: missing"));
}

#[test]
fn test_validate_bad_edge_to() {
    let nodes = vec![node("a", "A", "person")];
    let edges = vec![edge("a", "missing", None)];
    let result = validate_graph(&nodes, &edges);
    assert!(result.is_err());
    assert!(result.unwrap_err().to_string().contains("Edge references unknown node: missing"));
}

#[test]
fn test_valid_graph() {
    let nodes = vec![node("a", "A", "person"), node("b", "B", "location")];
    let edges = vec![edge("a", "b", Some("goes to"))];
    assert!(validate_graph(&nodes, &edges).is_ok());
}

#[test]
fn test_graph_to_board_content_structure() {
    let nodes = vec![node("npc1", "Guard", "person"), node("loc1", "Tavern", "location")];
    let edges = vec![edge("npc1", "loc1", Some("works at"))];

    let board = graph_to_board_content(&nodes, &edges);

    // document + page + 2 column headers + 2 geo shapes + 1 arrow + 2 bindings = 9 records
    assert_eq!(board.shapes_v2.len(), 9);
    assert!(board.shapes.is_empty());
    assert!(board.bindings.is_empty());

    for record in &board.shapes_v2 {
        let val = &record.val;
        assert!(val.get("id").is_some(), "record missing id: {}", record.key);
        assert!(val.get("typeName").is_some(), "record missing typeName: {}", record.key);
        assert!(val.get("meta").is_some(), "record missing meta: {}", record.key);

        let tname = val.get("typeName").unwrap().as_str().unwrap().clone();
        match tname.as_str() {
            "shape" => {
                assert!(val.get("type").is_some(), "shape missing type: {}", record.key);
                assert!(val.get("props").is_some(), "shape missing props: {}", record.key);
                assert!(val.get("parentId").is_some(), "shape missing parentId: {}", record.key);
                assert!(val.get("index").is_some(), "shape missing index: {}", record.key);
                assert!(
                    val.get("props").unwrap().get("scale").is_some(),
                    "shape missing props.scale: {}",
                    record.key
                );
            }
            "binding" => {
                assert!(val.get("type").is_some(), "binding missing type: {}", record.key);
                assert!(val.get("fromId").is_some(), "binding missing fromId: {}", record.key);
                assert!(val.get("toId").is_some(), "binding missing toId: {}", record.key);
                assert!(val.get("props").is_some(), "binding missing props: {}", record.key);
            }
            "document" | "page" => {}
            other => panic!("unexpected typeName: {}", other),
        }
    }
}

#[test]
fn test_deterministic_layout() {
    let nodes = vec![node("a", "A", "person"), node("b", "B", "person")];
    let board1 = graph_to_board_content(&nodes, &[]);
    let board2 = graph_to_board_content(&nodes, &[]);
    let json1 = format!("{:?}", board1);
    let json2 = format!("{:?}", board2);
    assert_eq!(json1, json2, "Layout must be deterministic");
}

#[test]
fn test_edge_label_truncation() {
    let nodes = vec![node("a", "A", "person"), node("b", "B", "location")];
    let long_label = "x".repeat(100);
    let edges = vec![edge("a", "b", Some(&long_label))];

    let board = graph_to_board_content(&nodes, &edges);
    let arrow = board.shapes_v2.iter().find(|r| r.key.starts_with("shape:arrow_")).unwrap();
    let text = arrow.val.get("props").unwrap().get("text").unwrap().as_str().unwrap();
    assert_eq!(text.len(), 40, "Edge labels should be truncated to 40 chars");
}

#[test]
fn test_board_passes_validation() {
    let nodes = vec![node("a", "A", "person"), node("b", "B", "location"), node("c", "C", "event")];
    let edges = vec![edge("a", "b", Some("clue")), edge("b", "c", None)];

    let board = graph_to_board_content(&nodes, &edges);
    assert!(validate_board_content_pub(&board).is_ok(), "Generated board must pass validation");
}

#[test]
fn geo_and_color_follow_node_type() {

    assert_eq!(geo_for_type("location"), "pentagon");
    assert_eq!(geo_for_type("event"), "diamond");
    assert_eq!(geo_for_type("person"), "rectangle");
    assert_eq!(color_for_type("location"), "blue");
    assert_eq!(color_for_type("person"), "green");
    assert_eq!(color_for_type("dragon"), "black");
}
