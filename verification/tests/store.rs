use legend_keeper_mcp::json::JsonValue;
use legend_keeper_mcp::lk::schema::{Banner, Calendar, CalendarFormat, Document, LkRoot, Property, Resource};
use legend_keeper_mcp::lk::store::{extract_text_from_prosemirror, find_snippet, guess_mime_from_url, timeline_event_names, WorldStore};

fn from_serde(v: &serde_json::Value) -> JsonValue {
    match v {
        serde_json::Value::Null => JsonValue::Null,
        serde_json::Value::Bool(b) => JsonValue::Bool(*b),
        serde_json::Value::Number(n) => JsonValue::Number(n.to_string()),
        serde_json::Value::String(s) => JsonValue::Str(s.clone()),
        serde_json::Value::Array(a) => JsonValue::Array(a.iter().map(from_serde).collect()),
        serde_json::Value::Object(m) => {
            JsonValue::Object(m.iter().map(|(k, v)| (k.clone(), from_serde(v))).collect())
        }
    }
}

fn json(text: &str) -> JsonValue {
    from_serde(&serde_json::from_str::<serde_json::Value>(text).unwrap())
}

fn doc(id: &str, name: &str, doc_type: &str, content: Option<JsonValue>, hidden: bool) -> Document {
    Document {
        id: id.to_string(),
        name: name.to_string(),
        doc_type: doc_type.to_string(),
        locator_id: String::new(),
        pos: "a0".to_string(),
        is_hidden: hidden,
        is_first: false,
        is_full_width: None,
        created_at: String::new(),
        updated_at: String::new(),
        transforms: Vec::new(),
        sources: Vec::new(),
        presentation: None,
        content,
        map: None,
        calendar_id: None,
    }
}

fn page(text: &str) -> JsonValue {
    json(&format!(
        r#"{{"type":"doc","content":[{{"type":"paragraph","content":[{{"type":"text","text":"{}"}}]}}]}}"#,
        text
    ))
}

fn resource(id: &str, name: &str, parent: Option<&str>, tags: &[&str], docs: Vec<Document>) -> Resource {
    Resource {
        schema_version: 1,
        id: id.to_string(),
        name: name.to_string(),
        parent_id: parent.map(|p| p.to_string()),
        pos: "a0".to_string(),
        created_by: String::new(),
        is_hidden: false,
        is_locked: false,
        show_property_bar: true,
        icon_color: None,
        icon_glyph: None,
        icon_shape: None,
        aliases: Vec::new(),
        tags: tags.iter().map(|t| t.to_string()).collect(),
        documents: docs,
        properties: Vec::new(),
        banner: Banner { enabled: false, url: String::new(), y_position: 50 },
    }
}

fn calendar(id: &str, name: &str) -> Calendar {
    Calendar {
        id: id.to_string(),
        name: name.to_string(),
        has_zero_year: false,
        max_minutes: 1440,
        months: Vec::new(),
        leap_days: Vec::new(),
        weekdays: Vec::new(),
        epoch_weekday: 0,
        week_resets_each_month: false,
        hours_in_day: 24,
        minutes_in_hour: 60,
        negative_era: None,
        positive_eras: Vec::new(),
        moons: Vec::new(),
        format: CalendarFormat {
            id: String::new(),
            year: "numeric".to_string(),
            month: "long".to_string(),
            day: "numeric".to_string(),
            time: "short".to_string(),
        },
        half_clock: false,
    }
}

fn world(resources: Vec<Resource>, calendars: Vec<Calendar>) -> LkRoot {
    LkRoot {
        version: 1,
        export_id: String::new(),
        exported_at: String::new(),
        resource_count: resources.len(),
        resources,
        calendars,
        hash: String::new(),
    }
}

fn rime() -> LkRoot {
    let guide = resource("guide001", "Guide", None, &["LLM-Guide"], vec![doc("d0", "Main", "page", Some(page("Be kind.")), false)]);
    let north = resource("north001", "Northlands", None, &["location"], vec![doc("d1", "Main", "page", Some(page("Cold plains of ice.")), false)]);
    let caer = resource("caer0001", "Caer-Dineval", Some("north001"), &["location", "city"], vec![doc("d2", "Main", "page", Some(page("A keep by the ice lake.")), false)]);
    let bryn = resource("bryn0001", "Bryn Shander", Some("north001"), &["Location"], vec![doc("d3", "Secrets", "page", Some(page("Hidden ice vaults.")), true)]);
    world(vec![guide, north, caer, bryn], vec![calendar("cal1", "Harptos")])
}

fn store() -> WorldStore {
    let mut s = WorldStore::new();
    s.insert_world("rime".to_string(), rime());
    s.insert_world("alpha".to_string(), world(Vec::new(), Vec::new()));
    s
}

#[test]
fn worlds_listed_by_name_with_guide() {
    let s = store();
    let ws = s.list_worlds();
    assert_eq!(ws.len(), 2);
    assert_eq!(ws[0].name, "alpha");
    assert_eq!(ws[1].name, "rime");
    assert_eq!(ws[1].resource_count, 4);
    assert_eq!(ws[1].calendar_count, 1);
    assert_eq!(ws[1].guide.as_deref(), Some("Be kind."));
    assert!(ws[0].guide.is_none());
}

#[test]
fn world_must_be_named_when_several_are_loaded() {
    let s = store();
    let err = s.list_resources(&None, &None, &None).unwrap_err();
    assert_eq!(err.to_string(), "Invalid input: multiple worlds loaded; specify 'world' parameter");
    let err = s.list_resources(&Some("nowhere".to_string()), &None, &None).unwrap_err();
    assert_eq!(err.to_string(), "World not found: nowhere");
    let empty = WorldStore::new();
    let err = empty.list_resources(&None, &None, &None).unwrap_err();
    assert_eq!(err.to_string(), "World not found: no worlds loaded");
}

#[test]
fn resources_filtered_by_tag_and_name() {
    let s = store();
    let w = Some("rime".to_string());
    let by_tag = s.list_resources(&w, &Some("LOCATION".to_string()), &None).unwrap();
    let names: Vec<&str> = by_tag.iter().map(|r| r.name.as_str()).collect();
    assert_eq!(names, vec!["Bryn Shander", "Caer-Dineval", "Northlands"]);
    let by_name = s.list_resources(&w, &None, &Some("caer".to_string())).unwrap();
    assert_eq!(by_name.len(), 1);
    assert_eq!(by_name[0].id, "caer0001");
    assert_eq!(by_name[0].parent_id.as_deref(), Some("north001"));
}

#[test]
fn resource_found_by_id_or_name() {
    let s = store();
    let w = Some("rime".to_string());
    assert_eq!(s.get_resource(&w, "caer0001").unwrap().name, "Caer-Dineval");
    assert_eq!(s.get_resource(&w, "bryn shander").unwrap().id, "bryn0001");
    let err = s.get_resource(&w, "Waterdeep").unwrap_err();
    assert_eq!(err.to_string(), "Resource not found: Waterdeep");
}

#[test]
fn calendar_found_by_name() {
    let s = store();
    let w = Some("rime".to_string());
    assert_eq!(s.get_calendar(&w, "harptos").unwrap().id, "cal1");
    assert!(s.get_calendar(&w, "Gregorian").is_err());
}

#[test]
fn tree_nests_children_under_parents() {
    let s = store();
    let w = Some("rime".to_string());
    assert!(s.resource_tree_is_finite(&w, &None));
    let tree = s.get_resource_tree(&w, &None).unwrap();
    let roots: Vec<&str> = tree.iter().map(|t| t.name.as_str()).collect();
    assert_eq!(roots, vec!["Guide", "Northlands"]);
    let north = &tree[1];
    let kids: Vec<&str> = north.children.iter().map(|t| t.name.as_str()).collect();
    assert_eq!(kids.len(), 2);
    assert!(kids.contains(&"Caer-Dineval"));
    assert!(kids.contains(&"Bryn Shander"));
    let sub = s.get_resource_tree(&w, &Some("north001".to_string())).unwrap();
    assert_eq!(sub.len(), 2);
    assert!(s.get_resource_tree(&w, &Some("missing1".to_string())).is_err());
}

#[test]
fn search_finds_page_text_within_limit() {
    let s = store();
    let w = Some("rime".to_string());
    let hits = s.search_content(&w, "ICE", None).unwrap();
    assert_eq!(hits.len(), 3);
    assert_eq!(hits[0].resource_name, "Northlands");
    assert_eq!(hits[0].snippet, "Cold plains of ice. ");
    assert!(hits[2].is_hidden);
    let limited = s.search_content(&w, "ice", Some(2)).unwrap();
    assert_eq!(limited.len(), 2);
    let err = s.search_content(&w, "", None).unwrap_err();
    assert_eq!(err.to_string(), "Invalid input: query cannot be empty");
}

#[test]
fn snippet_marks_cut_ends() {
    let text = format!("{}needle{}", "a".repeat(60), "b".repeat(60));
    let snip = find_snippet(&text, "needle").unwrap();
    assert_eq!(snip, format!("...{}needle{}...", "a".repeat(50), "b".repeat(50)));
    assert_eq!(find_snippet("short text", "text").unwrap(), "short text");
    assert!(find_snippet("short text", "zzz").is_none());
}

#[test]
fn prosemirror_text_spaces_blocks() {
    let j = json(r#"{"type":"doc","content":[
        {"type":"heading","content":[{"type":"text","text":"Title"}]},
        {"type":"paragraph","content":[{"type":"text","text":"Body"}]}
    ]}"#);
    assert_eq!(extract_text_from_prosemirror(&j), "Title Body ");
}

#[test]
fn mime_guessed_from_extension() {
    assert_eq!(guess_mime_from_url("https://x/map.PNG"), "image/png");
    assert_eq!(guess_mime_from_url("https://x/map.webp"), "image/webp");
    assert_eq!(guess_mime_from_url("https://x/map.JPEG"), "image/jpeg");
    assert_eq!(guess_mime_from_url("https://x/map"), "image/png");
}

#[test]
fn templates_listed_and_copied_with_fresh_ids() {
    let mut t = resource("tmpl0001", "NPC", None, &["npc"], Vec::new());
    t.properties.push(Property {
        id: "prop0001".to_string(),
        pos: "a0".to_string(),
        prop_type: "IMAGE".to_string(),
        title: "IMAGE".to_string(),
        is_hidden: None,
        is_title_hidden: None,
        data: None,
    });
    t.icon_glyph = Some("user".to_string());
    let folder = resource("fold0001", "Default Templates", Some("templates"), &[], Vec::new());
    t.parent_id = Some("fold0001".to_string());
    let mut s = WorldStore::new();
    s.insert_world("w".to_string(), world(vec![folder, t], Vec::new()));
    let list = s.list_templates(&None).unwrap();
    assert_eq!(list.len(), 1);
    assert_eq!(list[0].name, "NPC");
    assert_eq!(list[0].properties[0].title, "IMAGE");
    let (props, tags, icon) = s.get_template_properties(&None, "npc").unwrap();
    assert_eq!(props.len(), 1);
    assert_ne!(props[0].id, "prop0001");
    assert_eq!(props[0].id.len(), 8);
    assert_eq!(tags, vec!["npc".to_string()]);
    assert_eq!(icon.icon_glyph.as_deref(), Some("user"));
    let err = s.get_template_properties(&None, "Dragon").unwrap_err();
    assert_eq!(err.to_string(), "Invalid input: Template 'Dragon' not found");
}


#[test]
fn snippet_found_without_case() {
    assert_eq!(find_snippet("The ICE wall", "ice").unwrap(), "The ICE wall");
}

#[test]
fn timeline_names_read_in_either_serde_form() {
    let obj = json(r#"{"lanes":[{"id":"l1","name":"Main","pos":"a0","size":1}],"events":[
        {"id":"e1","laneId":"l1","type":"event","pos":"a0","start":10,"name":"Coronation"}]}"#);
    assert_eq!(timeline_event_names(&obj), Some(vec!["Coronation".to_string()]));
    let arr = json(r#"[[["l1","Main","a0",1]],[
        ["e1","l1","event","a0",null,10,null,"Siege",null,null,null,null,null,false,null]]]"#);
    assert_eq!(timeline_event_names(&arr), Some(vec!["Siege".to_string()]));
    assert_eq!(timeline_event_names(&json("[]")), Some(Vec::new()));
    let short = json(r#"[[],[["e1","l1","event","a0",null,10,null,"Siege"]]]"#);
    assert_eq!(timeline_event_names(&short), None);
    assert_eq!(timeline_event_names(&json("[[],[],[]]")), None);
    assert_eq!(timeline_event_names(&json(r#"{"lanes":null}"#)), None);
}
