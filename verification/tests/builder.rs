use std::collections::HashSet;

use legend_keeper_mcp::json::JsonValue;
use legend_keeper_mcp::lk::builder::WorldBuilder;
use legend_keeper_mcp::lk::pos::pos_key_exec;

fn from_serde(v: &serde_json::Value) -> JsonValue {
    match v {
        serde_json::Value::Null => JsonValue::Null,
        serde_json::Value::Bool(b) => JsonValue::Bool(*b),
        serde_json::Value::Number(n) => JsonValue::Number(n.to_string()),
        serde_json::Value::String(s) => JsonValue::Str(s.clone()),
        serde_json::Value::Array(a) => JsonValue::Array(a.iter().map(from_serde).collect()),
        serde_json::Value::Object(m) => {
            JsonValue::Object(m.iter().map(|(k, v)| (k.clone(), from_serde(v))).collect())
        }
    }
}

fn to_serde(v: &JsonValue) -> serde_json::Value {
    match v {
        JsonValue::Null => serde_json::Value::Null,
        JsonValue::Bool(b) => serde_json::Value::Bool(*b),
        JsonValue::Number(n) => serde_json::from_str(n).unwrap(),
        JsonValue::Str(s) => serde_json::Value::String(s.clone()),
        JsonValue::Array(a) => serde_json::Value::Array(a.iter().map(to_serde).collect()),
        JsonValue::Object(es) => {
            let mut m = serde_json::Map::new();
            for (k, v) in es {
                m.insert(k.clone(), to_serde(v));
            }
            serde_json::Value::Object(m)
        }
    }
}

/// The JSON parse of a document's content, as the server hands it over.
fn parse(content: &str) -> Result<JsonValue, String> {
    serde_json::from_str::<serde_json::Value>(content)
        .map(|v| from_serde(&v))
        .map_err(|e| e.to_string())
}

#[test]
fn create_world_and_export() {
    let mut builder = WorldBuilder::new("test-world");

    let root = builder
        .create_resource(
            "The Kingdom",
            None,
            Some(vec!["location".to_string()]),
            Some("# The Kingdom\n\nA vast and ancient realm."),
            false,
            Vec::new(),
            Vec::new(),
            None,
            None,
            None,
        )
        .unwrap();
    assert!(!root.id.is_empty());
    assert_eq!(root.name, "The Kingdom");
    assert_eq!(root.document_count, 1);

    let child = builder
        .create_resource(
            "The Capital",
            Some(&root.id),
            Some(vec!["location".to_string(), "city".to_string()]),
            Some("The capital city sits on a hill."),
            false,
            Vec::new(),
            Vec::new(),
            None,
            None,
            None,
        )
        .unwrap();
    assert_eq!(child.parent_id.as_deref(), Some(root.id.as_str()));

    let _npc = builder
        .create_resource(
            "King Aldric",
            Some(&root.id),
            Some(vec!["npc".to_string()]),
            Some("The aging king who rules the realm with a firm hand."),
            false,
            Vec::new(),
            Vec::new(),
            None,
            None,
            None,
        )
        .unwrap();

    let summary = builder.list_draft();
    assert_eq!(summary.name, "test-world");
    assert_eq!(summary.resource_count, 3);

    // Stamp the draft as an export does; the file itself is written by the server.
    builder.prepare_export("[]");
    let root = &builder.root;
    assert_eq!(root.version, 1);
    assert_eq!(root.resource_count, 3);
    assert_eq!(root.resources.len(), 3);
    assert!(!root.hash.is_empty());
    assert_eq!(root.hash.len(), 64);
    assert!(!root.exported_at.is_empty());

    let names: Vec<&str> = root.resources.iter().map(|r| r.name.as_str()).collect();
    assert!(names.contains(&"The Kingdom"));
    assert!(names.contains(&"The Capital"));
    assert!(names.contains(&"King Aldric"));

    let capital = root.resources.iter().find(|r| r.name == "The Capital").unwrap();
    let kingdom = root.resources.iter().find(|r| r.name == "The Kingdom").unwrap();
    assert_eq!(capital.parent_id.as_deref(), Some(kingdom.id.as_str()));

    let kingdom_doc = &kingdom.documents[0];
    assert_eq!(kingdom_doc.doc_type, "page");
    assert!(kingdom_doc.content.is_some());
    let content = to_serde(kingdom_doc.content.as_ref().unwrap());
    assert_eq!(content["type"], "doc");
    let children = content["content"].as_array().unwrap();
    assert!(children.len() >= 2);
}

#[test]
fn add_document_to_resource() {
    let mut builder = WorldBuilder::new("test");

    let res = builder
        .create_resource("Tavern", None, None, Some("A cozy tavern."), false, Vec::new(), Vec::new(), None, None, None)
        .unwrap();

    let content = "Secret passage behind the bar.";
    let doc = builder
        .add_document(&res.id, "DM Notes", content, None, false, parse(content))
        .unwrap();
    assert!(!doc.id.is_empty());
    assert_eq!(doc.name, "DM Notes");
    assert_eq!(doc.doc_type, "page");

    let summary = builder.list_draft();
    let tavern = summary.resources.iter().find(|r| r.name == "Tavern").unwrap();
    assert_eq!(tavern.document_count, 2);
}

#[test]
fn set_content_updates_document() {
    let mut builder = WorldBuilder::new("test");

    let res = builder
        .create_resource("Place", None, None, Some("Original content."), false, Vec::new(), Vec::new(), None, None, None)
        .unwrap();

    builder
        .set_content(&res.id, None, "# Updated\n\nNew content here.")
        .unwrap();

    let place = builder.root.resources.iter().find(|r| r.name == "Place").unwrap();
    let content = to_serde(place.documents[0].content.as_ref().unwrap());
    let children = content["content"].as_array().unwrap();
    let heading = children.iter().find(|n| n["type"] == "heading").unwrap();
    assert!(heading["content"][0]["text"].as_str().unwrap().contains("Updated"));
}

#[test]
fn invalid_parent_id_errors() {
    let mut builder = WorldBuilder::new("test");
    let result = builder.create_resource("Child", Some("nonexistent"), None, None, false, Vec::new(), Vec::new(), None, None, None);
    assert!(result.is_err());
}

#[test]
fn operations_without_draft_resource_error() {
    let mut builder = WorldBuilder::new("test");
    let result = builder.add_document("nonexistent", "Doc", "content", None, false, parse("content"));
    assert!(result.is_err());

    let result = builder.set_content("nonexistent", None, "content");
    assert!(result.is_err());
}

#[test]
fn mention_resolution_in_content() {
    let mut builder = WorldBuilder::new("test");

    let npc = builder
        .create_resource("Gandalf", None, None, None, false, Vec::new(), Vec::new(), None, None, None)
        .unwrap();

    let _place = builder
        .create_resource(
            "Shire",
            None,
            None,
            Some("[[Gandalf]] visited the Shire."),
            false,
            Vec::new(),
            Vec::new(),
            None,
            None,
            None,
        )
        .unwrap();

    let shire = builder.root.resources.iter().find(|r| r.name == "Shire").unwrap();
    let content = to_serde(shire.documents[0].content.as_ref().unwrap());

    let content_str = serde_json::to_string(&content).unwrap();
    assert!(content_str.contains("\"type\":\"mention\""));
    assert!(content_str.contains(&npc.id));
}

#[test]
fn resource_hidden_by_default_when_omitted() {
    let mut builder = WorldBuilder::new("test");

    let defaulted = builder
        .create_resource("Default Resource", None, None, Some("No is_hidden specified."), true, Vec::new(), Vec::new(), None, None, None)
        .unwrap();

    let explicit_visible = builder
        .create_resource("Visible Resource", None, None, Some("Explicitly visible."), false, Vec::new(), Vec::new(), None, None, None)
        .unwrap();

    builder.prepare_export("[]");
    let root = &builder.root;

    let defaulted_r = root.resources.iter().find(|r| r.id == defaulted.id).unwrap();
    assert!(defaulted_r.is_hidden, "Resource with is_hidden=true (server default) should be hidden");

    let visible_r = root.resources.iter().find(|r| r.id == explicit_visible.id).unwrap();
    assert!(!visible_r.is_hidden, "Resource with explicit is_hidden=false should be visible");
}

#[test]
fn hidden_resource_persists_through_export() {
    let mut builder = WorldBuilder::new("test");

    let visible = builder
        .create_resource("Public Location", None, None, Some("Everyone can see this."), false, Vec::new(), Vec::new(), None, None, None)
        .unwrap();

    let hidden = builder
        .create_resource("Secret Lair", None, None, Some("Only the DM knows."), true, Vec::new(), Vec::new(), None, None, None)
        .unwrap();

    builder.prepare_export("[]");
    let root = &builder.root;

    let public = root.resources.iter().find(|r| r.id == visible.id).unwrap();
    assert!(!public.is_hidden);

    let secret = root.resources.iter().find(|r| r.id == hidden.id).unwrap();
    assert!(secret.is_hidden);
}

#[test]
fn hidden_document_persists_through_export() {
    let mut builder = WorldBuilder::new("test");

    let res = builder
        .create_resource("Tavern", None, None, Some("A cozy tavern."), false, Vec::new(), Vec::new(), None, None, None)
        .unwrap();

    let notes = "Secret passage behind the bar.";
    builder
        .add_document(&res.id, "DM Notes", notes, None, true, parse(notes))
        .unwrap();

    let menu = "Ale: 5cp, Stew: 1sp";
    builder
        .add_document(&res.id, "Menu", menu, None, false, parse(menu))
        .unwrap();

    builder.prepare_export("[]");
    let root = &builder.root;
    let tavern = root.resources.iter().find(|r| r.id == res.id).unwrap();

    assert_eq!(tavern.documents.len(), 3);

    let dm_notes = tavern.documents.iter().find(|d| d.name == "DM Notes").unwrap();
    assert!(dm_notes.is_hidden);

    let menu = tavern.documents.iter().find(|d| d.name == "Menu").unwrap();
    assert!(!menu.is_hidden);

    let main = tavern.documents.iter().find(|d| d.name == "Main").unwrap();
    assert!(!main.is_hidden);
}

#[test]
fn board_document_validation_rejects_missing_id() {
    let mut builder = WorldBuilder::new("test");
    let res = builder
        .create_resource("Board Test", None, None, None, false, vec![], vec![], None, None, None)
        .unwrap();

    let bad_board = r#"{"shapes":[],"bindings":[],"shapesV2":[
        {"key":"document:document","val":{"id":"document:document","typeName":"document","gridSize":10,"name":"","meta":{}}},
        {"key":"page:page","val":{"id":"page:page","typeName":"page","name":"Page 1","index":"a1","meta":{}}},
        {"key":"binding:b1","val":{"typeName":"binding","type":"arrow","fromId":"shape:a1","toId":"shape:g1","meta":{},"props":{"terminal":"start","normalizedAnchor":{"x":0.5,"y":0.5},"isPrecise":false,"isExact":false}}}
    ]}"#;

    let err = builder.add_document(&res.id, "Board", bad_board, Some("board"), false, parse(bad_board));
    assert!(err.is_err(), "Should reject binding without id");
    let msg = err.unwrap_err().to_string();
    assert!(msg.contains("missing required field 'id'"), "Error should mention 'id', got: {}", msg);
}

#[test]
fn board_document_validation_rejects_missing_scale() {
    let mut builder = WorldBuilder::new("test");
    let res = builder
        .create_resource("Board Test", None, None, None, false, vec![], vec![], None, None, None)
        .unwrap();

    let bad_board = r#"{"shapes":[],"bindings":[],"shapesV2":[
        {"key":"document:document","val":{"id":"document:document","typeName":"document","gridSize":10,"name":"","meta":{}}},
        {"key":"page:page","val":{"id":"page:page","typeName":"page","name":"Page 1","index":"a1","meta":{}}},
        {"key":"shape:g1","val":{"id":"shape:g1","typeName":"shape","type":"geo","x":0,"y":0,"rotation":0,"isLocked":false,"opacity":1,"meta":{},"parentId":"page:page","index":"a1","props":{"w":100,"h":100,"geo":"rectangle","color":"blue","fill":"none","text":"Test"}}}
    ]}"#;

    let err = builder.add_document(&res.id, "Board", bad_board, Some("board"), false, parse(bad_board));
    assert!(err.is_err(), "Should reject shape without scale in props");
    let msg = err.unwrap_err().to_string();
    assert!(msg.contains("scale"), "Error should mention 'scale', got: {}", msg);
}

#[test]
fn board_document_validation_accepts_valid_board() {
    let mut builder = WorldBuilder::new("test");
    let res = builder
        .create_resource("Board Test", None, None, None, false, vec![], vec![], None, None, None)
        .unwrap();

    let good_board = r#"{"shapes":[],"bindings":[],"shapesV2":[
        {"key":"document:document","val":{"id":"document:document","typeName":"document","gridSize":10,"name":"","meta":{}}},
        {"key":"page:page","val":{"id":"page:page","typeName":"page","name":"Page 1","index":"a1","meta":{}}},
        {"key":"shape:g1","val":{"id":"shape:g1","typeName":"shape","type":"geo","x":0,"y":0,"rotation":0,"isLocked":false,"opacity":1,"meta":{},"parentId":"page:page","index":"a1","props":{"w":100,"h":100,"geo":"rectangle","color":"blue","fill":"none","dash":"draw","size":"m","font":"draw","text":"Tavern","align":"middle","verticalAlign":"middle","growY":0,"url":"","labelColor":"black","scale":1}}},
        {"key":"binding:b1","val":{"id":"binding:b1","typeName":"binding","type":"arrow","fromId":"shape:a1","toId":"shape:g1","meta":{},"props":{"terminal":"start","normalizedAnchor":{"x":0.5,"y":0.5},"isPrecise":false,"isExact":false}}}
    ]}"#;

    let result = builder.add_document(&res.id, "Board", good_board, Some("board"), false, parse(good_board));
    assert!(result.is_ok(), "Should accept valid board: {:?}", result.err());
}

#[test]
fn board_document_rejects_unparsable_json() {
    let mut builder = WorldBuilder::new("test");
    let res = builder
        .create_resource("Board Test", None, None, None, false, vec![], vec![], None, None, None)
        .unwrap();
    let err = builder.add_document(&res.id, "Board", "not json", Some("board"), false, parse("not json"));
    let msg = err.unwrap_err().to_string();
    assert!(msg.starts_with("Invalid input: invalid board JSON: "), "got: {}", msg);

    let err = builder.add_document(&res.id, "Board", "{}", Some("board"), false, parse("{}"));
    let msg = err.unwrap_err().to_string();
    assert!(msg.starts_with("Invalid input: invalid board structure: "), "got: {}", msg);
}

#[test]
fn delete_resource_removes_single() {
    let mut builder = WorldBuilder::new("test");

    let root = builder
        .create_resource("Root", None, None, None, false, Vec::new(), Vec::new(), None, None, None)
        .unwrap();
    let child = builder
        .create_resource("Child", Some(&root.id), None, None, false, Vec::new(), Vec::new(), None, None, None)
        .unwrap();

    let err = builder.delete_resource(&root.id, false);
    assert!(err.is_err());

    let deleted = builder.delete_resource(&child.id, false).unwrap();
    assert_eq!(deleted.len(), 1);
    assert!(deleted.contains(&child.id));

    let summary = builder.list_draft();
    assert_eq!(summary.resource_count, 1);
    assert_eq!(summary.resources[0].name, "Root");
}

#[test]
fn delete_resource_recursive() {
    let mut builder = WorldBuilder::new("test");

    let root = builder
        .create_resource("Root", None, None, None, false, Vec::new(), Vec::new(), None, None, None)
        .unwrap();
    let child = builder
        .create_resource("Child", Some(&root.id), None, None, false, Vec::new(), Vec::new(), None, None, None)
        .unwrap();
    let grandchild = builder
        .create_resource("Grandchild", Some(&child.id), None, None, false, Vec::new(), Vec::new(), None, None, None)
        .unwrap();

    let deleted = builder.delete_resource(&root.id, true).unwrap();
    assert_eq!(deleted.len(), 3);
    let deleted_set: HashSet<&str> = deleted.iter().map(|s| s.as_str()).collect();
    assert!(deleted_set.contains(root.id.as_str()));
    assert!(deleted_set.contains(child.id.as_str()));
    assert!(deleted_set.contains(grandchild.id.as_str()));

    let summary = builder.list_draft();
    assert_eq!(summary.resource_count, 0);
}

#[test]
fn delete_nonexistent_resource_errors() {
    let mut builder = WorldBuilder::new("test");
    let err = builder.delete_resource("nonexistent", false);
    assert!(err.is_err());
}

#[test]
fn reparent_resource_basic() {
    let mut builder = WorldBuilder::new("test");

    let a = builder
        .create_resource("A", None, None, None, false, Vec::new(), Vec::new(), None, None, None)
        .unwrap();
    let b = builder
        .create_resource("B", None, None, None, false, Vec::new(), Vec::new(), None, None, None)
        .unwrap();
    let child = builder
        .create_resource("Child", Some(&a.id), None, None, false, Vec::new(), Vec::new(), None, None, None)
        .unwrap();

    builder.reparent_resource(&child.id, Some(&b.id)).unwrap();

    let summary = builder.list_draft();
    let moved = summary.resources.iter().find(|r| r.id == child.id).unwrap();
    assert_eq!(moved.parent_id.as_deref(), Some(b.id.as_str()));
}

#[test]
fn reparent_to_top_level() {
    let mut builder = WorldBuilder::new("test");

    let parent = builder
        .create_resource("Parent", None, None, None, false, Vec::new(), Vec::new(), None, None, None)
        .unwrap();
    let child = builder
        .create_resource("Child", Some(&parent.id), None, None, false, Vec::new(), Vec::new(), None, None, None)
        .unwrap();

    builder.reparent_resource(&child.id, None).unwrap();

    let summary = builder.list_draft();
    let moved = summary.resources.iter().find(|r| r.id == child.id).unwrap();
    assert!(moved.parent_id.is_none());
}

#[test]
fn reparent_prevents_circular_reference() {
    let mut builder = WorldBuilder::new("test");

    let parent = builder
        .create_resource("Parent", None, None, None, false, Vec::new(), Vec::new(), None, None, None)
        .unwrap();
    let child = builder
        .create_resource("Child", Some(&parent.id), None, None, false, Vec::new(), Vec::new(), None, None, None)
        .unwrap();

    let err = builder.reparent_resource(&parent.id, Some(&child.id));
    assert!(err.is_err());
}

#[test]
fn reparent_prevents_self_reference() {
    let mut builder = WorldBuilder::new("test");

    let a = builder
        .create_resource("A", None, None, None, false, Vec::new(), Vec::new(), None, None, None)
        .unwrap();

    let err = builder.reparent_resource(&a.id, Some(&a.id));
    assert!(err.is_err());
}

#[test]
fn reparent_nonexistent_resource_errors() {
    let mut builder = WorldBuilder::new("test");

    let a = builder
        .create_resource("A", None, None, None, false, Vec::new(), Vec::new(), None, None, None)
        .unwrap();

    let err = builder.reparent_resource("nonexistent", Some(&a.id));
    assert!(err.is_err());

    let err = builder.reparent_resource(&a.id, Some("nonexistent"));
    assert!(err.is_err());
}

#[test]
fn delete_recursive_on_leaf_succeeds() {
    let mut builder = WorldBuilder::new("test");

    let leaf = builder
        .create_resource("Leaf", None, None, None, false, Vec::new(), Vec::new(), None, None, None)
        .unwrap();

    let deleted = builder.delete_resource(&leaf.id, true).unwrap();
    assert_eq!(deleted.len(), 1);
    assert!(deleted.contains(&leaf.id));

    let summary = builder.list_draft();
    assert_eq!(summary.resource_count, 0);
}

#[test]
fn get_draft_resource_by_id_and_name() {
    let mut builder = WorldBuilder::new("test");

    let res = builder
        .create_resource("Captain Reef", None, Some(vec!["npc".to_string()]), Some("A pirate captain."), false, Vec::new(), Vec::new(), None, None, None)
        .unwrap();

    let found = builder.get_draft_resource(&res.id).unwrap();
    assert_eq!(found.name, "Captain Reef");

    let found = builder.get_draft_resource("captain reef").unwrap();
    assert_eq!(found.id, res.id);

    let err = builder.get_draft_resource("nonexistent");
    assert!(err.is_err());
}

#[test]
fn get_draft_document_default_and_by_id() {
    let mut builder = WorldBuilder::new("test");

    let res = builder
        .create_resource("Tavern", None, None, Some("A cozy tavern."), false, Vec::new(), Vec::new(), None, None, None)
        .unwrap();

    let doc2 = builder
        .add_document(&res.id, "DM Notes", "Secret info.", None, true, parse("Secret info."))
        .unwrap();

    let doc = builder.get_draft_document(&res.id, None).unwrap();
    assert_eq!(doc.name, "Main");

    let doc = builder.get_draft_document(&res.id, Some(&doc2.id)).unwrap();
    assert_eq!(doc.name, "DM Notes");
    assert!(doc.is_hidden);

    let err = builder.get_draft_document(&res.id, Some("nonexistent"));
    assert!(err.is_err());

    let err = builder.get_draft_document("nonexistent", None);
    assert!(err.is_err());
}

#[test]
fn update_resource_metadata() {
    let mut builder = WorldBuilder::new("test");

    let res = builder
        .create_resource("Old Name", None, Some(vec!["tag1".to_string()]), None, false, Vec::new(), Vec::new(), None, None, None)
        .unwrap();

    let updated = builder.update_resource(&res.id, Some("New Name"), Some(vec!["tag2".to_string(), "tag3".to_string()]), None, None).unwrap();
    assert_eq!(updated.name, "New Name");
    assert_eq!(updated.tags, vec!["tag2", "tag3"]);

    let updated = builder.update_resource(&res.id, None, None, Some(true), None).unwrap();
    assert_eq!(updated.name, "New Name");

    let updated = builder.update_resource(&res.id, None, None, None, Some(vec!["Alias1".to_string()])).unwrap();
    assert_eq!(updated.name, "New Name");

    let updated = builder.update_resource(&res.id, None, None, None, None).unwrap();
    assert_eq!(updated.name, "New Name");

    let err = builder.update_resource("nonexistent", Some("X"), None, None, None);
    assert!(err.is_err());
}

#[test]
fn delete_document_from_resource() {
    let mut builder = WorldBuilder::new("test");

    let res = builder
        .create_resource("Place", None, None, Some("Main content."), false, Vec::new(), Vec::new(), None, None, None)
        .unwrap();

    let doc2 = builder
        .add_document(&res.id, "History", "Long ago...", None, false, parse("Long ago..."))
        .unwrap();

    let name = builder.delete_document(&res.id, &doc2.id).unwrap();
    assert_eq!(name, "History");

    let summary = builder.list_draft();
    let place = summary.resources.iter().find(|r| r.id == res.id).unwrap();
    assert_eq!(place.document_count, 1);
}

#[test]
fn delete_last_document_fails() {
    let mut builder = WorldBuilder::new("test");

    let res = builder
        .create_resource("Place", None, None, Some("Content."), false, Vec::new(), Vec::new(), None, None, None)
        .unwrap();

    let doc = builder.get_draft_document(&res.id, None).unwrap();
    let doc_id = doc.id.clone();

    let err = builder.delete_document(&res.id, &doc_id);
    assert!(err.is_err());
}

#[test]
fn delete_document_nonexistent_errors() {
    let mut builder = WorldBuilder::new("test");

    let res = builder
        .create_resource("Place", None, None, None, false, Vec::new(), Vec::new(), None, None, None)
        .unwrap();

    builder.add_document(&res.id, "Extra", "content", None, false, parse("content")).unwrap();

    let err = builder.delete_document(&res.id, "nonexistent");
    assert!(err.is_err());

    let err = builder.delete_document("nonexistent", "whatever");
    assert!(err.is_err());
}

#[test]
fn from_lk_root_preserves_resources() {
    let mut builder = WorldBuilder::new("roundtrip");

    let root_res = builder
        .create_resource("Kingdom", None, Some(vec!["location".to_string()]), Some("A great kingdom."), false, Vec::new(), Vec::new(), None, None, None)
        .unwrap();
    let child_res = builder
        .create_resource("Capital", Some(&root_res.id), Some(vec!["city".to_string()]), Some("The capital city."), false, Vec::new(), Vec::new(), None, None, None)
        .unwrap();

    builder.prepare_export("[]");
    let lk_root = builder.root.clone();
    let loaded = WorldBuilder::from_lk_root("roundtrip".to_string(), lk_root);

    let summary = loaded.list_draft();
    assert_eq!(summary.name, "roundtrip");
    assert_eq!(summary.resource_count, 2);

    let names: Vec<&str> = summary.resources.iter().map(|r| r.name.as_str()).collect();
    assert!(names.contains(&"Kingdom"));
    assert!(names.contains(&"Capital"));

    let kingdom = summary.resources.iter().find(|r| r.name == "Kingdom").unwrap();
    assert_eq!(kingdom.id, root_res.id);
    let capital = summary.resources.iter().find(|r| r.name == "Capital").unwrap();
    assert_eq!(capital.id, child_res.id);
    assert_eq!(capital.parent_id.as_deref(), Some(root_res.id.as_str()));
}

// --- further cases ---

#[test]
fn generated_ids_have_legend_keeper_format() {
    let mut builder = WorldBuilder::new("test");
    let res = builder
        .create_resource("X", None, None, None, false, Vec::new(), Vec::new(), None, None, None)
        .unwrap();
    assert_eq!(res.id.len(), 8);
    assert!(res.id.chars().all(|c| c.is_ascii_lowercase() || c.is_ascii_digit()));
    let doc = &builder.root.resources[0].documents[0];
    assert_eq!(doc.id.len(), 8);
    assert_eq!(doc.locator_id, format!("lk://resources/{}/docs/main", res.id));
    assert_eq!(builder.root.resources[0].pos, "a0");
}

#[test]
fn export_hash_is_sha256_of_resources_json() {
    let mut builder = WorldBuilder::new("test");
    builder.prepare_export("abc");
    assert_eq!(
        builder.root.hash,
        "ba7816bf8f01cfea414140de5dae2223b00361a396177a9cb410ff61f20015ad"
    );
    assert_eq!(builder.root.resource_count, 0);
}

#[test]
fn non_page_document_keeps_parsed_json() {
    let mut builder = WorldBuilder::new("test");
    let res = builder
        .create_resource("Map", None, None, None, false, Vec::new(), Vec::new(), None, None, None)
        .unwrap();
    builder.add_document(&res.id, "Chart", "{\"pins\":[]}", Some("map"), false, parse("{\"pins\":[]}")).unwrap();
    builder.add_document(&res.id, "Notes", "plain text", Some("time"), false, parse("plain text")).unwrap();
    let r = &builder.root.resources[0];
    assert_eq!(to_serde(r.documents[1].content.as_ref().unwrap()), serde_json::from_str::<serde_json::Value>("{\"pins\":[]}").unwrap());
    assert!(r.documents[2].content.is_none());
    assert_eq!(r.documents[2].pos, "a2");
}

#[test]
fn subtree_delete_leaves_no_dangling_parent() {
    let mut builder = WorldBuilder::new("test");
    let a = builder.create_resource("A", None, None, None, false, Vec::new(), Vec::new(), None, None, None).unwrap();
    let b = builder.create_resource("B", Some(&a.id), None, None, false, Vec::new(), Vec::new(), None, None, None).unwrap();
    let _c = builder.create_resource("C", Some(&b.id), None, None, false, Vec::new(), Vec::new(), None, None, None).unwrap();
    let d = builder.create_resource("D", Some(&a.id), None, None, false, Vec::new(), Vec::new(), None, None, None).unwrap();
    let deleted = builder.delete_resource(&b.id, true).unwrap();
    assert_eq!(deleted.len(), 2);
    let ids: Vec<&str> = builder.root.resources.iter().map(|r| r.id.as_str()).collect();
    assert_eq!(ids, vec![a.id.as_str(), d.id.as_str()]);
    for r in &builder.root.resources {
        if let Some(p) = &r.parent_id {
            assert!(ids.contains(&p.as_str()));
        }
    }
}

#[test]
fn reparent_keeps_everything_but_the_parent() {
    let mut builder = WorldBuilder::new("test");
    let a = builder
        .create_resource("A", None, None, None, false, Vec::new(), Vec::new(), None, None, None)
        .unwrap();
    let child = builder
        .create_resource(
            "Child",
            None,
            Some(vec!["npc".to_string()]),
            Some("Body."),
            true,
            vec!["Kid".to_string()],
            Vec::new(),
            Some("blue".to_string()),
            None,
            None,
        )
        .unwrap();
    let before = builder.root.resources[1].clone();
    builder.reparent_resource(&child.id, Some(&a.id)).unwrap();
    let after = &builder.root.resources[1];
    assert_eq!(after.parent_id.as_deref(), Some(a.id.as_str()));
    assert_eq!(after.id, before.id);
    assert_eq!(after.name, before.name);
    assert_eq!(after.tags, before.tags);
    assert_eq!(after.aliases, before.aliases);
    assert_eq!(after.is_hidden, before.is_hidden);
    assert_eq!(after.icon_color, before.icon_color);
    assert_eq!(after.pos, before.pos);
    assert_eq!(after.documents.len(), before.documents.len());
    assert_eq!(after.documents[0].id, before.documents[0].id);
}

#[test]
fn export_stamps_a_timestamp() {
    let mut builder = WorldBuilder::new("w");
    builder.prepare_export("[]");
    assert!(builder.root.exported_at.len() >= 20);
    assert!(builder.root.exported_at.contains('T'));
}

#[test]
fn new_resources_sort_after_earlier_ones() {
    let mut builder = WorldBuilder::new("w");
    for i in 0..12 {
        builder
            .create_resource(&format!("R{}", i), None, None, None, false, Vec::new(), Vec::new(), None, None, None)
            .unwrap();
    }
    let pos: Vec<String> = builder.root.resources.iter().map(|r| r.pos.clone()).collect();
    assert_eq!(pos[0], "a0");
    assert_eq!(pos[9], "a9");
    assert_eq!(pos[10], "aA");
    assert_eq!(pos[11], "aB");
    let mut sorted = pos.clone();
    sorted.sort();
    assert_eq!(sorted, pos);
}

#[test]
fn order_keys_grow_a_digit_when_one_runs_out() {
    assert_eq!(pos_key_exec(35), "aZ");
    assert_eq!(pos_key_exec(36), "aa");
    assert_eq!(pos_key_exec(61), "az");
    assert_eq!(pos_key_exec(62), "b00");
    assert_eq!(pos_key_exec(63), "b01");
    assert_eq!(pos_key_exec(62 + 3844), "c000");
    let keys: Vec<String> = (0..5000).map(pos_key_exec).collect();
    for w in keys.windows(2) {
        assert!(w[0] < w[1], "{} !< {}", w[0], w[1]);
    }
}

#[test]
fn new_items_sort_after_loaded_and_left_over_keys() {
    let mut builder = WorldBuilder::new("w");
    for name in ["A", "B", "C"] {
        builder.create_resource(name, None, None, None, false, Vec::new(), Vec::new(), None, None, None).unwrap();
    }
    let first = builder.root.resources[0].id.clone();
    builder.delete_resource(&first, false).unwrap();
    let d = builder.create_resource("D", None, None, None, false, Vec::new(), Vec::new(), None, None, None).unwrap();
    let pos_d = builder.root.resources.iter().find(|r| r.id == d.id).unwrap().pos.clone();
    assert_eq!(pos_d, "a2V");
    for r in &builder.root.resources {
        if r.id != d.id {
            assert!(r.pos < pos_d);
        }
    }
    builder.root.resources[0].pos = "b5".to_string();
    let e = builder.create_resource("E", None, None, None, false, Vec::new(), Vec::new(), None, None, None).unwrap();
    let pos_e = builder.root.resources.iter().find(|r| r.id == e.id).unwrap().pos.clone();
    assert_eq!(pos_e, "b5V");
    let kid = builder.root.resources[0].id.clone();
    builder.add_document(&kid, "Notes", "x", None, false, Err(String::new())).unwrap();
    let docs = &builder.root.resources[0].documents;
    assert_eq!(docs[0].pos, "a0");
    assert_eq!(docs[1].pos, "a1");
}
