use legend_keeper_mcp::json::JsonValue;
use legend_keeper_mcp::lk::schema::Resource;
use legend_keeper_mcp::prosemirror::from_markdown::from_markdown;
use legend_keeper_mcp::prosemirror::to_markdown::to_markdown;

fn to_serde(v: &JsonValue) -> serde_json::Value {
    match v {
        JsonValue::Null => serde_json::Value::Null,
        JsonValue::Bool(b) => serde_json::Value::Bool(*b),
        JsonValue::Number(n) => serde_json::from_str(n).unwrap(),
        JsonValue::Str(s) => serde_json::Value::String(s.clone()),
        JsonValue::Array(a) => serde_json::Value::Array(a.iter().map(to_serde).collect()),
        JsonValue::Object(es) => {
            let mut m = serde_json::Map::new();
            for (k, v) in es {
                m.insert(k.clone(), to_serde(v));
            }
            serde_json::Value::Object(m)
        }
    }
}

fn from_serde(v: &serde_json::Value) -> JsonValue {
    match v {
        serde_json::Value::Null => JsonValue::Null,
        serde_json::Value::Bool(b) => JsonValue::Bool(*b),
        serde_json::Value::Number(n) => JsonValue::Number(n.to_string()),
        serde_json::Value::String(s) => JsonValue::Str(s.clone()),
        serde_json::Value::Array(a) => JsonValue::Array(a.iter().map(from_serde).collect()),
        serde_json::Value::Object(m) => {
            JsonValue::Object(m.iter().map(|(k, v)| (k.clone(), from_serde(v))).collect())
        }
    }
}

fn md(text: &str) -> serde_json::Value {
    let none: Vec<Resource> = Vec::new();
    to_serde(&from_markdown(text, &none))
}

fn pm(json: &str) -> JsonValue {
    from_serde(&serde_json::from_str::<serde_json::Value>(json).unwrap())
}

#[test]
fn from_markdown_table() {
    let md_text = "| Trait | Value |\n|---|---|\n| Sexuality | n/a |\n| Languages | Common, Draconic |\n";
    let pm = md(md_text);

    let content = pm["content"].as_array().unwrap();
    let table = &content[0];
    assert_eq!(table["type"], "table", "Expected table node, got: {}", serde_json::to_string_pretty(&pm).unwrap());

    let rows = table["content"].as_array().unwrap();
    assert_eq!(rows.len(), 3, "Expected 3 rows (1 header + 2 data)");

    let header_row = &rows[0];
    assert_eq!(header_row["type"], "tableRow");
    let header_cells = header_row["content"].as_array().unwrap();
    assert_eq!(header_cells[0]["type"], "tableHeader");
    let header_para = &header_cells[0]["content"][0];
    assert_eq!(header_para["type"], "paragraph");
    let header_text = header_para["content"][0]["text"].as_str().unwrap();
    assert_eq!(header_text, "Trait");

    let data_row = &rows[1];
    let data_cells = data_row["content"].as_array().unwrap();
    assert_eq!(data_cells[0]["type"], "tableCell");
    let cell_text = data_cells[0]["content"][0]["content"][0]["text"].as_str().unwrap();
    assert_eq!(cell_text, "Sexuality");
    let cell_value = data_cells[1]["content"][0]["content"][0]["text"].as_str().unwrap();
    assert_eq!(cell_value, "n/a");

    let row3 = &rows[2];
    let cells3 = row3["content"].as_array().unwrap();
    let lang_value = cells3[1]["content"][0]["content"][0]["text"].as_str().unwrap();
    assert_eq!(lang_value, "Common, Draconic");
}

#[test]
fn from_markdown_table_with_surrounding_content() {
    let md_text = "## Other Traits\n\n| Key | Value |\n|---|---|\n| Intelligence | Sharp |\n\n## Personality\n\nBold and brave.\n";
    let pm = md(md_text);

    let content = pm["content"].as_array().unwrap();
    assert!(content.len() >= 4, "Expected at least 4 nodes, got {}: {}", content.len(), serde_json::to_string_pretty(&pm).unwrap());
    assert_eq!(content[0]["type"], "heading");
    assert_eq!(content[1]["type"], "table");
    assert_eq!(content[2]["type"], "heading");
    assert_eq!(content[3]["type"], "paragraph");
}

#[test]
fn from_markdown_multi_column_table() {
    let md_text = "| Name | Race | Class | Level |\n|---|---|---|---|\n| Gandalf | Maia | Wizard | 20 |\n| Aragorn | Human | Ranger | 16 |\n";
    let pm = md(md_text);

    let table = &pm["content"][0];
    assert_eq!(table["type"], "table");

    let rows = table["content"].as_array().unwrap();
    assert_eq!(rows.len(), 3);

    let header_cells = rows[0]["content"].as_array().unwrap();
    assert_eq!(header_cells.len(), 4);

    let data_cells = rows[1]["content"].as_array().unwrap();
    assert_eq!(data_cells.len(), 4);
}

#[test]
fn from_markdown_strikethrough() {
    let md_text = "This is ~~deleted~~ text.\n";
    let pm = md(md_text);

    let para = &pm["content"][0];
    assert_eq!(para["type"], "paragraph");
    let inlines = para["content"].as_array().unwrap();

    let struck = inlines.iter().find(|n| {
        n.get("marks")
            .and_then(|m| m.as_array())
            .map(|marks| marks.iter().any(|m| m["type"] == "strike"))
            .unwrap_or(false)
    });
    assert!(struck.is_some(), "Expected a struck-through text node, got: {:?}", inlines);
    assert_eq!(struck.unwrap()["text"], "deleted");
}

#[test]
fn from_markdown_tasklist() {
    let md_text = "- [x] Done task\n- [ ] Todo task\n";
    let pm = md(md_text);

    let list = &pm["content"][0];
    assert_eq!(list["type"], "taskList", "Expected taskList, got: {}", serde_json::to_string_pretty(&pm).unwrap());

    let items = list["content"].as_array().unwrap();
    assert_eq!(items.len(), 2);

    assert_eq!(items[0]["type"], "taskItem");
    assert_eq!(items[0]["attrs"]["state"], "DONE");
    let done_content = items[0]["content"].as_array().unwrap();
    assert_eq!(done_content[0]["type"], "text", "taskItem should contain text directly, got: {}", serde_json::to_string_pretty(&items[0]).unwrap());
    assert_eq!(done_content[0]["text"], "Done task");

    assert_eq!(items[1]["type"], "taskItem");
    assert_eq!(items[1]["attrs"]["state"], "TODO");
    let todo_content = items[1]["content"].as_array().unwrap();
    assert_eq!(todo_content[0]["type"], "text");
    assert_eq!(todo_content[0]["text"], "Todo task");
}

#[test]
fn from_markdown_table_without_header_separator() {
    let md_text = "| Sexuality | Heterosexual |\n| Languages | Common, Dwarvish, Draconic |\n| Intelligence | Sharp and tactical |\n";
    let pm = md(md_text);

    let content = pm["content"].as_array().unwrap();
    let table = content.iter().find(|n| n["type"] == "table");
    assert!(table.is_some(), "Expected a table node from headerless pipe syntax, got: {}", serde_json::to_string_pretty(&pm).unwrap());

    let rows = table.unwrap()["content"].as_array().unwrap();
    assert_eq!(rows.len(), 3, "Expected 3 rows");

    for (i, row) in rows.iter().enumerate() {
        let cells = row["content"].as_array().unwrap();
        assert_eq!(cells[0]["type"], "tableHeader", "Row {} first cell should be tableHeader", i);
        assert_eq!(cells[1]["type"], "tableCell", "Row {} second cell should be tableCell", i);
    }

    let cell_text = rows[0]["content"][0]["content"][0]["content"][0]["text"].as_str().unwrap();
    assert_eq!(cell_text, "Sexuality");
    let cell_value = rows[0]["content"][1]["content"][0]["content"][0]["text"].as_str().unwrap();
    assert_eq!(cell_value, "Heterosexual");
}

#[test]
fn from_markdown_table_without_separator_surrounded_by_content() {
    let md_text = "## Other Traits\n\n| Sexuality | Heterosexual |\n| Languages | Common |\n\n## Personality\n\nBold.\n";
    let pm = md(md_text);

    let content = pm["content"].as_array().unwrap();
    let types: Vec<&str> = content.iter().map(|n| n["type"].as_str().unwrap()).collect();
    assert!(types.contains(&"table"), "Expected table in output, got types: {:?}\nFull: {}", types, serde_json::to_string_pretty(&pm).unwrap());
}

#[test]
fn from_markdown_table_roundtrip() {
    let original_md = "| Trait | Value |\n|---|---|\n| Sexuality | n/a |\n| Languages | Common |\n";
    let none: Vec<Resource> = Vec::new();
    let pm = from_markdown(original_md, &none);

    let roundtrip_md = to_markdown(&pm);

    assert!(roundtrip_md.contains("Trait"), "Roundtrip should contain 'Trait': {}", roundtrip_md);
    assert!(roundtrip_md.contains("Sexuality"), "Roundtrip should contain 'Sexuality': {}", roundtrip_md);
    assert!(roundtrip_md.contains("n/a"), "Roundtrip should contain 'n/a': {}", roundtrip_md);
    assert!(roundtrip_md.contains("Languages"), "Roundtrip should contain 'Languages': {}", roundtrip_md);
    assert!(roundtrip_md.contains("|"), "Roundtrip should contain table pipes: {}", roundtrip_md);
}

// --- further cases of the two converters ---

#[test]
fn to_markdown_heading_and_marks() {
    let doc = pm(r#"{"type":"doc","content":[
        {"type":"heading","attrs":{"level":2},"content":[{"type":"text","text":"Title"}]},
        {"type":"paragraph","content":[
            {"type":"text","text":"bold","marks":[{"type":"strong"}]},
            {"type":"text","text":" and "},
            {"type":"text","text":"it","marks":[{"type":"em"}]}
        ]}
    ]}"#);
    assert_eq!(to_markdown(&doc), "## Title\n\n**bold** and *it*");
}

#[test]
fn to_markdown_lists() {
    let doc = pm(r#"{"type":"doc","content":[
        {"type":"bulletList","content":[
            {"type":"listItem","content":[{"type":"paragraph","content":[{"type":"text","text":"one"}]}]},
            {"type":"listItem","content":[{"type":"paragraph","content":[{"type":"text","text":"two"}]}]}
        ]}
    ]}"#);
    assert_eq!(to_markdown(&doc), "- one\n- two");
}

#[test]
fn to_markdown_of_no_node_is_empty() {
    assert_eq!(to_markdown(&pm("42")), "");
    assert_eq!(to_markdown(&pm("{\"content\":[]}")), "");
}

#[test]
fn from_markdown_empty_is_empty_doc() {
    let pm = md("");
    assert_eq!(pm["type"], "doc");
    assert_eq!(pm["content"].as_array().unwrap().len(), 0);
}

#[test]
fn from_markdown_heading_level() {
    let pm = md("### Deep\n");
    assert_eq!(pm["content"][0]["type"], "heading");
    assert_eq!(pm["content"][0]["attrs"]["level"], 3);
    assert_eq!(pm["content"][0]["content"][0]["text"], "Deep");
}

#[test]
fn markdown_roundtrip_of_simple_page() {
    let none: Vec<Resource> = Vec::new();
    let pm = from_markdown("# Title\n\nSome **bold** text.\n", &none);
    assert_eq!(to_markdown(&pm), "# Title\n\nSome **bold** text.");
}

#[test]
fn to_markdown_panel_capitalizes_its_type() {
    let doc = pm(r#"{"type":"doc","content":[
        {"type":"panel","attrs":{"panelType":"warning"},"content":[
            {"type":"paragraph","content":[{"type":"text","text":"Beware."}]},
            {"type":"paragraph","content":[{"type":"text","text":"Really."}]}
        ]}
    ]}"#);
    assert_eq!(to_markdown(&doc), "> **Warning:** Beware.\n> \n> Really.");
}

#[test]
fn task_item_keeps_only_inline_content() {
    let pm = md("- [ ] ![](https://example.com/a.png)\n");
    let item = &pm["content"][0]["content"][0];
    assert_eq!(item["type"], "taskItem");
    assert_eq!(item["attrs"]["state"], "TODO");
    assert!(item.get("content").is_none(), "image kept in a task item: {}", item);

    let pm = md("- [x] Go ![](https://example.com/a.png) now\n");
    let item = &pm["content"][0]["content"][0];
    assert_eq!(item["attrs"]["state"], "DONE");
    let content = item["content"].as_array().unwrap();
    assert!(!content.is_empty());
    for c in content {
        let t = c["type"].as_str().unwrap();
        assert!(["text", "hardBreak", "mention", "inlineExtension"].contains(&t), "block in task item: {}", c);
    }
    assert_eq!(content[0]["text"], "Go ");
}

#[test]
fn unknown_node_renders_its_children_in_order() {
    let v = pm(r#"{"type":"doc","content":[{"type":"expand","attrs":{"title":"More"},"content":[
        {"type":"paragraph","content":[{"type":"text","text":"first"}]},
        {"type":"rule"},
        {"type":"paragraph","content":[{"type":"text","text":"second","marks":[{"type":"strong"}]}]}
    ]},{"type":"nestedExpand"}]}"#);
    assert_eq!(to_markdown(&v), "first\n\n---\n\n**second**");
    let empty = pm(r#"{"type":"somethingNew"}"#);
    assert_eq!(to_markdown(&empty), "");
}

#[test]
fn nodes_in_array_form_read_as_serde_reads_them() {
    assert_eq!(to_markdown(&pm(r#"["text",null,null,null,"hi"]"#)), "hi");
    let doc = pm(r#"{"type":"doc","content":[["paragraph",null,[["text",null,null,[["strong"]],"bold"],{"type":"text","text":" plain"}]]]}"#);
    assert_eq!(to_markdown(&doc), "**bold** plain");
    assert_eq!(to_markdown(&pm(r#"["heading",{"level":2},[["text",null,null,null,"Title"]]]"#)), "## Title");
    assert_eq!(to_markdown(&pm(r#"["text",null,null,null,"hi",1]"#)), "");
    assert_eq!(to_markdown(&pm(r#"[1,null]"#)), "");
    assert_eq!(to_markdown(&pm(r#"[]"#)), "");
    assert_eq!(to_markdown(&pm(r#"["text",null,"not a list"]"#)), "");
}
