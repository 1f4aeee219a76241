use legend_keeper_mcp::json::JsonValue;
use legend_keeper_mcp::lk::board_gen::{graph_to_board_content, GraphEdge, GraphNode};
use legend_keeper_mcp::prosemirror::to_markdown::to_markdown;
use legend_keeper_mcp::lk::builder::WorldBuilder;
use legend_keeper_mcp::lk::schema::{Banner, Calibration, Document, Lane, LkRoot, MapData, Presentation, Property, Resource, TimelineContent, TimelineEvent};
use legend_keeper_mcp::lk::store::WorldStore;
use legend_keeper_mcp::server::batch::{create_resource_from_params, merge_tags, template_cache};
use legend_keeper_mcp::server::board::format_board_document;
use legend_keeper_mcp::server::map::{format_map_document, MapFeatureView};
use legend_keeper_mcp::server::format::{extract_resource_id_from_uri, format_document, format_property_value, format_resource, DocExtra};
use legend_keeper_mcp::server::{BatchDocumentSpec, BatchResourceSpec, CreateResourceParams};

fn from_serde(v: &serde_json::Value) -> JsonValue {
    match v {
        serde_json::Value::Null => JsonValue::Null,
        serde_json::Value::Bool(b) => JsonValue::Bool(*b),
        serde_json::Value::Number(n) => JsonValue::Number(n.to_string()),
        serde_json::Value::String(s) => JsonValue::Str(s.clone()),
        serde_json::Value::Array(a) => JsonValue::Array(a.iter().map(from_serde).collect()),
        serde_json::Value::Object(m) => {
            JsonValue::Object(m.iter().map(|(k, v)| (k.clone(), from_serde(v))).collect())
        }
    }
}

fn json(text: &str) -> JsonValue {
    from_serde(&serde_json::from_str::<serde_json::Value>(text).unwrap())
}

fn doc(id: &str, name: &str, doc_type: &str, content: Option<JsonValue>, hidden: bool) -> Document {
    Document {
        id: id.to_string(),
        name: name.to_string(),
        doc_type: doc_type.to_string(),
        locator_id: String::new(),
        pos: "a0".to_string(),
        is_hidden: hidden,
        is_first: false,
        is_full_width: None,
        created_at: String::new(),
        updated_at: String::new(),
        transforms: Vec::new(),
        sources: Vec::new(),
        presentation: None,
        content,
        map: None,
        calendar_id: None,
    }
}

fn prop(title: &str, prop_type: &str, data: Option<JsonValue>, hidden: Option<bool>) -> Property {
    Property {
        id: "p0000001".to_string(),
        pos: "a0".to_string(),
        prop_type: prop_type.to_string(),
        title: title.to_string(),
        is_hidden: hidden,
        is_title_hidden: None,
        data,
    }
}

fn resource(id: &str, name: &str, parent: Option<&str>) -> Resource {
    Resource {
        schema_version: 1,
        id: id.to_string(),
        name: name.to_string(),
        parent_id: parent.map(|p| p.to_string()),
        pos: "a0".to_string(),
        created_by: String::new(),
        is_hidden: false,
        is_locked: false,
        show_property_bar: true,
        icon_color: None,
        icon_glyph: None,
        icon_shape: None,
        aliases: Vec::new(),
        tags: Vec::new(),
        documents: Vec::new(),
        properties: Vec::new(),
        banner: Banner { enabled: false, url: String::new(), y_position: 50 },
    }
}

fn event(name: &str, start: i64, end: Option<i64>) -> TimelineEvent {
    TimelineEvent {
        id: String::new(),
        lane_id: String::new(),
        event_type: String::new(),
        pos: String::new(),
        detail: None,
        start,
        end,
        name: name.to_string(),
        icon_glyph: None,
        color: None,
        image_url: None,
        image_fit: None,
        opacity: None,
        is_synced: false,
        data: None,
    }
}

#[test]
fn resource_view_has_metadata_properties_and_documents() {
    let mut r = resource("tav00001", "Tavern", Some("town0001"));
    r.tags = vec!["inn".to_string(), "food".to_string()];
    r.aliases = vec!["The Pony".to_string()];
    r.properties = vec![
        prop("Tags", "TAGS", Some(json("[\"inn\"]")), None),
        prop("Owner", "TEXT", Some(json("\"Barliman\"")), Some(true)),
        prop("Links", "LIST", Some(json("[\"a\", 1, \"b\"]")), None),
        prop("Empty", "OBJ", Some(json("{}")), None),
        prop("Img", "IMAGE", Some(json("{\"url\": \"http://i\"}")), None),
        prop("Nothing", "TEXT", None, None),
    ];
    let page = json(r#"{"type":"doc","content":[{"type":"paragraph","content":[{"type":"text","text":"Warm."}]}]}"#);
    let mut history = doc("d2", "History", "time", Some(json("{}")), true);
    history.calendar_id = Some("cal1".to_string());
    r.documents = vec![doc("d1", "Main", "page", Some(page), false), history];
    let compacts = vec![
        "[\"inn\"]".to_string(),
        "\"Barliman\"".to_string(),
        String::new(),
        "{}".to_string(),
        String::new(),
        String::new(),
    ];
    let timeline = TimelineContent {
        lanes: vec![Lane { id: String::new(), name: "Main lane".to_string(), pos: String::new(), size: JsonValue::Null }],
        events: vec![event("Founding", 100, Some(120)), event("Fire", -150, None)],
    };
    let extras = vec![DocExtra::Plain, DocExtra::Timeline(timeline)];
    let text = format_resource(&r, &compacts, &extras);
    assert_eq!(
        text,
        "# Tavern\n\n**ID:** tav00001\n**Parent ID:** town0001\n**Tags:** inn, food\n**Aliases:** The Pony\n\
**Owner *(hidden)*:** Barliman\n**Links:** a, b\n**Img:** http://i\n\n\
## \u{1F4C4} Main\n\nWarm.\n\n\
## \u{1F4C5} History *(hidden)*\n\nCalendar: cal1\n\n**Lanes:**\n- Main lane\n\n**Events:**\n- Founding (100 to 120)\n- Fire (-150)"
    );
}

#[test]
fn single_page_resource_has_no_document_heading() {
    let mut r = resource("one00001", "Solo", None);
    let page = json(r#"{"type":"doc","content":[{"type":"paragraph","content":[{"type":"text","text":"Alone."}]}]}"#);
    r.documents = vec![doc("d1", "Main", "page", Some(page), false)];
    let text = format_resource(&r, &Vec::new(), &Vec::new());
    assert_eq!(text, "# Solo\n\n**ID:** one00001\n\nAlone.");
}

#[test]
fn map_and_board_sections_come_from_the_caller() {
    let mut r = resource("map00001", "Realm", None);
    r.documents = vec![doc("m1", "World Map", "map", None, false), doc("b1", "Plan", "board", None, false)];
    let extras = vec![DocExtra::Rendered("MAP TEXT".to_string()), DocExtra::Rendered("BOARD TEXT".to_string())];
    let text = format_resource(&r, &Vec::new(), &extras);
    assert_eq!(text, "# Realm\n\n**ID:** map00001\n\nMAP TEXT\n\nBOARD TEXT");
}

#[test]
fn property_values_shown_as_text() {
    assert_eq!(format_property_value(&json("\"x\""), "\"x\""), "x");
    assert_eq!(format_property_value(&json("[\"a\", true, \"b\"]"), ""), "a, b");
    assert_eq!(format_property_value(&json("{\"value\": \"v\", \"url\": \"u\"}"), ""), "v");
    assert_eq!(format_property_value(&json("{\"url\": \"u\"}"), ""), "u");
    assert_eq!(format_property_value(&json("{\"k\": 1}"), "{\"k\":1}"), "{\"k\":1}");
    assert_eq!(format_property_value(&json("42"), "42"), "42");
}

#[test]
fn resource_ids_read_from_links() {
    assert_eq!(extract_resource_id_from_uri("lk://resources/abc12345/docs/x").as_deref(), Some("abc12345"));
    assert_eq!(extract_resource_id_from_uri("lk://resources/onlyid").as_deref(), Some("onlyid"));
    assert_eq!(extract_resource_id_from_uri("https://example.com/x"), None);
}

#[test]
fn single_document_view() {
    let page = json(r#"{"type":"doc","content":[{"type":"paragraph","content":[{"type":"text","text":"Hi"}]}]}"#);
    let d = doc("d9", "Notes", "page", Some(page), false);
    assert_eq!(format_document(&d, "unused"), "**Document:** Notes\n**ID:** d9\n**Type:** page\n**Hidden:** false\n\nHi");
    let m = doc("d8", "Chart", "map", Some(json("{\"a\": 1}")), true);
    assert_eq!(
        format_document(&m, "{\n  \"a\": 1\n}"),
        "**Document:** Chart\n**ID:** d8\n**Type:** map\n**Hidden:** true\n\n{\n  \"a\": 1\n}"
    );
    let e = doc("d7", "Empty", "page", None, false);
    assert_eq!(format_document(&e, ""), "**Document:** Empty\n**ID:** d7\n**Type:** page\n**Hidden:** false");
}

#[test]
fn board_summary_counts_nodes_labels_and_graph() {
    let content = json(r#"{"shapes":[],"bindings":[],"shapesV2":[
        {"key":"shape:g1","val":{"id":"shape:g1","typeName":"shape","type":"geo","x":10,"y":20,"props":{"text":"Inn","geo":"ellipse","color":"red"}}},
        {"key":"shape:g2","val":{"id":"g2","typeName":"shape","type":"geo","props":{"text":"Well"}}},
        {"key":"shape:a1","val":{"id":"shape:a1","typeName":"shape","type":"arrow","props":{}}},
        {"key":"shape:t1","val":{"id":"shape:t1","typeName":"shape","type":"text","props":{"text":"Note"}}},
        {"key":"binding:1","val":{"typeName":"binding","fromId":"shape:a1","toId":"shape:g2","props":{"terminal":"start"}}},
        {"key":"binding:2","val":{"typeName":"binding","fromId":"shape:a1","toId":"shape:g1","props":{"terminal":"end"}}}
    ]}"#);
    let d = doc("b1", "Plan", "board", Some(content), false);
    let nums: Vec<(String, String)> = vec![
        ("10, 20".to_string(), "1.0".to_string()),
        ("0, 0".to_string(), "1.0".to_string()),
        ("0, 0".to_string(), "1.0".to_string()),
        ("5, 6".to_string(), "1.5".to_string()),
    ];
    assert_eq!(
        format_board_document(&d, " *(hidden)*", &nums),
        "## Board: Plan *(hidden)*\n\n**Shapes:** 4 (2 geo, 1 arrows, 1 text, 0 lines)\n**Bindings:** 2\n\n\
### Nodes (2 geo shapes)\n| Label | Geo | Color | Position |\n|-------|-----|-------|----------|\n\
| Inn | ellipse | red | (10, 20) |\n| Well | rectangle |  | (0, 0) |\n\n\
### Text Labels (1)\n- Note (scale 1.5, at 5, 6)\n\n\
### Graph (1 connections)\n- Well -> Inn\n\n"
    );
}

#[test]
fn board_connections_sorted() {
    let content = json(r#"{"shapes":[],"bindings":[],"shapesV2":[
        {"key":"a","val":{"id":"x","typeName":"shape","type":"arrow","props":{}}},
        {"key":"b","val":{"typeName":"binding","fromId":"shape:z","toId":"q","props":{"terminal":"start"}}},
        {"key":"c","val":{"typeName":"binding","fromId":"shape:z","toId":"r","props":{"terminal":"end"}}},
        {"key":"d","val":{"typeName":"binding","fromId":"y","toId":"b","props":{"terminal":"start"}}},
        {"key":"e","val":{"typeName":"binding","fromId":"y","toId":"a","props":{"terminal":"end"}}}
    ]}"#);
    let d = doc("b2", "G", "board", Some(content), false);
    assert_eq!(
        format_board_document(&d, "", &Vec::new()),
        "## Board: G\n\n**Shapes:** 1 (0 geo, 1 arrows, 0 text, 0 lines)\n**Bindings:** 4\n\n\
### Graph (2 connections)\n- b -> a\n- q -> r\n\n"
    );
}

#[test]
fn board_without_records_says_so() {
    let d = doc("b3", "Blank", "board", Some(json("{\"shapes\": []}")), false);
    assert_eq!(format_board_document(&d, "", &Vec::new()), "## Board: Blank\n\n(no board content)\n");
}

#[test]
fn template_tags_merged_without_case_duplicates() {
    let merged = merge_tags(
        vec!["Npc".to_string(), "x".to_string()],
        &vec!["npc".to_string(), "y".to_string(), "Y".to_string()],
    );
    assert_eq!(merged, vec!["Npc".to_string(), "x".to_string(), "y".to_string()]);
}

fn spec(name: &str, parent: Option<&str>) -> BatchResourceSpec {
    BatchResourceSpec {
        name: name.to_string(),
        parent: parent.map(|p| p.to_string()),
        tags: None,
        content: None,
        is_hidden: None,
        template: None,
        aliases: None,
        documents: None,
    }
}

#[test]
fn batch_parents_may_name_earlier_resources() {
    let mut b = WorldBuilder::new("w");
    let mut first = spec("Kingdom", None);
    first.documents = Some(vec![BatchDocumentSpec {
        name: "DM Notes".to_string(),
        content: "Secret.".to_string(),
        doc_type: None,
        is_hidden: Some(true),
    }]);
    first.tags = Some(vec!["realm".to_string()]);
    let specs = vec![first, spec("Capital", Some("kingdom"))];
    let parsed: Vec<Vec<Result<JsonValue, String>>> = vec![vec![Err("not JSON".to_string())], Vec::new()];
    let created = b.batch_create(&specs, &Vec::new(), &parsed).unwrap();
    assert_eq!(created.len(), 2);
    assert_eq!(created[0].name, "Kingdom");
    assert_eq!(created[0].documents.len(), 1);
    assert_eq!(created[0].documents[0].name, "DM Notes");
    let rs = &b.root.resources;
    assert_eq!(rs.len(), 2);
    assert_eq!(rs[1].parent_id.as_deref(), Some(created[0].id.as_str()));
    assert!(rs[0].is_hidden);
    assert_eq!(rs[0].tags, vec!["realm".to_string()]);
    assert_eq!(rs[0].documents.len(), 2);
    assert!(rs[0].documents[1].is_hidden);
}

#[test]
fn batch_stops_at_unknown_parent() {
    let mut b = WorldBuilder::new("w");
    let specs = vec![spec("A", None), spec("B", Some("nowhere"))];
    let err = b.batch_create(&specs, &Vec::new(), &Vec::new()).unwrap_err();
    assert_eq!(err.to_string(), "Draft resource not found: nowhere");
    assert_eq!(b.root.resources.len(), 1);
}

fn template_store() -> WorldStore {
    let folder = resource("fold0001", "Default Templates", Some("templates"));
    let mut npc = resource("tmpl0001", "NPC", Some("fold0001"));
    npc.tags = vec!["npc".to_string(), "Person".to_string()];
    npc.icon_color = Some("red".to_string());
    npc.properties = vec![prop("IMAGE", "IMAGE", None, None)];
    let root = LkRoot {
        version: 1,
        export_id: String::new(),
        exported_at: String::new(),
        resource_count: 2,
        resources: vec![folder, npc],
        calendars: Vec::new(),
        hash: String::new(),
    };
    let mut s = WorldStore::new();
    s.insert_world("w".to_string(), root);
    s
}

#[test]
fn batch_templates_looked_up_once() {
    let s = template_store();
    let mut a = spec("A", None);
    a.template = Some("NPC".to_string());
    let mut b2 = spec("B", None);
    b2.template = Some("npc".to_string());
    b2.tags = Some(vec!["person".to_string()]);
    let specs = vec![a, b2];
    let cache = template_cache(&s, &None, &specs).unwrap();
    assert_eq!(cache.len(), 1);
    assert_eq!(cache[0].key, "npc");
    let mut b = WorldBuilder::new("w");
    b.batch_create(&specs, &cache, &Vec::new()).unwrap();
    let rs = &b.root.resources;
    assert_eq!(rs[0].tags, vec!["npc".to_string(), "Person".to_string()]);
    assert_eq!(rs[1].tags, vec!["person".to_string(), "npc".to_string()]);
    assert_eq!(rs[0].properties.len(), 1);
    assert_eq!(rs[0].properties[0].id, rs[1].properties[0].id);
    assert_eq!(rs[1].icon_color.as_deref(), Some("red"));

    let mut bad = spec("C", None);
    bad.template = Some("Dragon".to_string());
    let err = template_cache(&s, &None, &vec![bad]).unwrap_err();
    assert_eq!(err.to_string(), "Invalid input: Template 'Dragon' not found");
}

#[test]
fn create_from_params_needs_a_draft() {
    let s = template_store();
    let params = CreateResourceParams {
        name: "Bob".to_string(),
        parent_id: None,
        tags: Some(vec!["hero".to_string()]),
        content: Some("A hero.".to_string()),
        is_hidden: None,
        template: Some("NPC".to_string()),
        aliases: None,
        template_world: None,
    };
    let mut none: Option<WorldBuilder> = None;
    let err = create_resource_from_params(&s, &mut none, &params).unwrap_err();
    assert_eq!(err, "No draft world \u{2014} call create_world first");

    let mut draft = Some(WorldBuilder::new("w"));
    let made = create_resource_from_params(&s, &mut draft, &params).unwrap();
    assert_eq!(made.tags, vec!["hero".to_string(), "npc".to_string(), "Person".to_string()]);
    let r = &draft.as_ref().unwrap().root.resources[0];
    assert!(r.is_hidden);
    assert_eq!(r.icon_color.as_deref(), Some("red"));
    assert_eq!(r.properties.len(), 1);

    let mut missing = params.clone();
    missing.template = Some("Dragon".to_string());
    let err = create_resource_from_params(&s, &mut draft, &missing).unwrap_err();
    assert_eq!(err, "Invalid input: Template 'Dragon' not found");
}

#[test]
fn batch_stops_at_refused_board() {
    let mut b = WorldBuilder::new("w");
    let mut first = spec("A", None);
    first.documents = Some(vec![BatchDocumentSpec {
        name: "Plan".to_string(),
        content: "{oops".to_string(),
        doc_type: Some("board".to_string()),
        is_hidden: None,
    }]);
    let specs = vec![first, spec("B", None)];
    let parsed: Vec<Vec<Result<JsonValue, String>>> = vec![vec![Err("bad".to_string())]];
    let err = b.batch_create(&specs, &Vec::new(), &parsed).unwrap_err();
    assert_eq!(err.to_string(), "Invalid input: invalid board JSON: bad");
    assert_eq!(b.root.resources.len(), 1);
    assert_eq!(b.root.resources[0].documents.len(), 1);
}

fn feature(name: &str, kind: Option<&str>, pos: &str) -> MapFeatureView {
    MapFeatureView {
        name: name.to_string(),
        feature_type: kind.map(|k| k.to_string()),
        pos: pos.to_string(),
        uri: None,
        icon_glyph: None,
        fill_style: None,
        border_style: None,
        polygon: None,
        stroke_style: None,
        stroke_width: None,
        polyline: None,
        label_size: None,
    }
}

#[test]
fn map_summary_lists_features_by_kind() {
    let mut d = doc("m1", "Realm", "map", None, true);
    d.map = Some(MapData {
        locator_id: String::new(),
        map_id: "https://x/map.png".to_string(),
        min_x: -10,
        max_x: 100,
        min_y: 0,
        max_y: 50,
        max_zoom: 3,
    });
    d.presentation = Some(Presentation {
        document_type: "map".to_string(),
        calibration: Some(Calibration {
            real_units_per_map_unit: "2.5".to_string(),
            unit: "miles".to_string(),
            calibration_distance: "1".to_string(),
            calibration_map_distance: "1".to_string(),
        }),
        default_mode: None,
        disallowed_modes: None,
    });
    let mut pin = feature("Town", None, "1.0, 2.0");
    pin.uri = Some("lk://resources/abc12345/docs/d1".to_string());
    let mut region = feature("Woods", Some("region"), "0.0, 0.0");
    region.polygon = Some(vec!["(0.0, 0.0)".to_string(), "(1.0, 0.0)".to_string()]);
    region.fill_style = Some("hatch".to_string());
    let mut road = feature("Road", Some("path"), "0.0, 0.0");
    road.stroke_width = Some("2.5".to_string());
    let label = feature("North", Some("label"), "5.0, 6.0");
    let features = Some(vec![pin, region, road, label, feature("Odd", Some("other"), "0.0, 0.0")]);
    assert_eq!(
        format_map_document(&d, " *(hidden)*", "2.5", &features),
        "## \u{1F5FA}\u{FE0F} Realm *(hidden)*\n\nMap image: https://x/map.png\nBounds: (-10, 0) to (100, 50)\n\
Scale: 1 map unit = 2.5 miles\n\
\n**Pins (1):**\n| Name | Position | Icon | Link |\n|------|----------|------|------|\n| Town | (1.0, 2.0) | \u{2014} | abc12345 |\n\
\n**Regions (1):**\n- **Woods** (hatch fill, solid border): (0.0, 0.0) \u{2192} (1.0, 0.0)\n\
\n**Paths (1):**\n- **Road** (solid, width 2.5): \n\
\n**Labels (1):**\n- North (medium, at 5.0, 6.0)\n"
    );
    let bare = doc("m2", "Blank", "map", None, false);
    assert_eq!(format_map_document(&bare, "", "", &None), "## \u{1F5FA}\u{FE0F} Blank\n\n");
}

#[test]
fn generated_board_graph_names_nodes_by_label() {
    let nodes = vec![
        GraphNode { id: "a".into(), label: "A".into(), node_type: "person".into() },
        GraphNode { id: "b".into(), label: "B".into(), node_type: "location".into() },
    ];
    let edges = vec![GraphEdge { from: "a".into(), to: "b".into(), label: None }];
    let board = graph_to_board_content(&nodes, &edges);
    let records: Vec<JsonValue> = board
        .shapes_v2
        .iter()
        .map(|r| JsonValue::Object(vec![("key".to_string(), JsonValue::Str(r.key.clone())), ("val".to_string(), r.val.clone())]))
        .collect();
    let content = JsonValue::Object(vec![
        ("shapes".to_string(), JsonValue::Array(board.shapes.clone())),
        ("bindings".to_string(), JsonValue::Array(board.bindings.clone())),
        ("shapesV2".to_string(), JsonValue::Array(records)),
    ]);
    let d = doc("b4", "Board", "board", Some(content), false);
    let nums: Vec<(String, String)> = vec![("0, 0".to_string(), "1".to_string()); board.shapes_v2.len()];
    let out = format_board_document(&d, "", &nums);
    assert!(out.contains("### Graph (1 connections)\n- A -> B\n"), "got: {}", out);
}

fn mention_ids(v: &JsonValue, out: &mut Vec<String>) {
    match v {
        JsonValue::Object(es) => {
            let is_mention = es.iter().any(|(k, x)| k == "type" && matches!(x, JsonValue::Str(t) if t == "mention"));
            for (k, x) in es {
                if is_mention && k == "attrs" {
                    if let JsonValue::Object(attrs) = x {
                        for (ak, av) in attrs {
                            if let (true, JsonValue::Str(id)) = (ak == "id", av) {
                                out.push(id.clone());
                            }
                        }
                    }
                }
                mention_ids(x, out);
            }
        }
        JsonValue::Array(a) => {
            for x in a {
                mention_ids(x, out);
            }
        }
        _ => {}
    }
}

#[test]
fn batch_documents_hold_their_content() {
    let mut b = WorldBuilder::new("w");
    let first = spec("Kingdom", None);
    let mut second = spec("Capital", Some("Kingdom"));
    second.content = Some("Seat of [[Kingdom]].".to_string());
    second.documents = Some(vec![BatchDocumentSpec {
        name: "DM Notes".to_string(),
        content: "Ruled by [[Capital]].".to_string(),
        doc_type: None,
        is_hidden: None,
    }]);
    let specs = vec![first, second];
    let created = b.batch_create(&specs, &Vec::new(), &Vec::new()).unwrap();
    let rs = &b.root.resources;
    let empty = rs[0].documents[0].content.as_ref().unwrap();
    assert_eq!(to_markdown(empty), "");
    let main = rs[1].documents[0].content.as_ref().unwrap();
    assert_eq!(to_markdown(main), "Seat of [[Kingdom]].");
    let mut ids = Vec::new();
    mention_ids(main, &mut ids);
    assert_eq!(ids, vec![created[0].id.clone()]);
    let notes = rs[1].documents[1].content.as_ref().unwrap();
    assert_eq!(to_markdown(notes), "Ruled by [[Capital]].");
    let mut ids = Vec::new();
    mention_ids(notes, &mut ids);
    assert_eq!(ids, vec![created[1].id.clone()]);
}

#[test]
fn create_from_params_writes_the_main_page() {
    let s = template_store();
    let params = CreateResourceParams {
        name: "Bob".to_string(),
        parent_id: None,
        tags: None,
        content: Some("A **bold** hero.".to_string()),
        is_hidden: Some(false),
        template: None,
        aliases: None,
        template_world: None,
    };
    let mut draft = Some(WorldBuilder::new("w"));
    create_resource_from_params(&s, &mut draft, &params).unwrap();
    let r = &draft.as_ref().unwrap().root.resources[0];
    assert!(!r.is_hidden);
    assert_eq!(r.documents.len(), 1);
    assert_eq!(r.documents[0].name, "Main");
    assert_eq!(to_markdown(r.documents[0].content.as_ref().unwrap()), "A **bold** hero.");
}
