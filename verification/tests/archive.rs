use legend_keeper_mcp::lk::archive::{lk_file_of_json, lk_json_of_file};
use legend_keeper_mcp::lk::builder::WorldBuilder;
use legend_keeper_mcp::lk::LkError;
use legend_keeper_mcp::server::batch::ensure_draft;
use legend_keeper_mcp::server::map::map_image_data;

#[test]
fn lk_file_round_trip_gives_back_the_json() {
    let json = br#"{"version":1,"resources":[],"calendars":[]}"#.to_vec();
    let file = lk_file_of_json(&json);
    assert_ne!(file, json);
    assert_eq!(&file[..2], &[0x1f, 0x8b]);
    assert_eq!(lk_json_of_file(&file).unwrap(), json);
    let empty: Vec<u8> = Vec::new();
    assert_eq!(lk_json_of_file(&lk_file_of_json(&empty)).unwrap(), empty);
}

#[test]
fn lk_file_that_is_not_gzip_is_a_json_error() {
    let bytes = b"{\"version\":1}".to_vec();
    match lk_json_of_file(&bytes) {
        Err(LkError::Json(_)) => {}
        other => panic!("expected a JSON error, got {:?}", other),
    }
}

#[test]
fn map_image_is_standard_base64() {
    assert_eq!(map_image_data(&b"".to_vec()), "");
    assert_eq!(map_image_data(&b"f".to_vec()), "Zg==");
    assert_eq!(map_image_data(&b"fo".to_vec()), "Zm8=");
    assert_eq!(map_image_data(&b"foo".to_vec()), "Zm9v");
    assert_eq!(map_image_data(&b"foobar".to_vec()), "Zm9vYmFy");
    assert_eq!(map_image_data(&vec![0xfb, 0xff, 0xfe]), "+//+");
}

#[test]
fn batch_draft_made_only_when_missing_and_named() {
    let mut none: Option<WorldBuilder> = None;
    assert_eq!(
        ensure_draft(&mut none, &None).unwrap_err(),
        "No draft world \u{2014} provide world_name or call create_world first"
    );
    assert!(none.is_none());

    ensure_draft(&mut none, &Some("Eld".to_string())).unwrap();
    let made = none.as_ref().unwrap();
    assert_eq!(made.name, "Eld");
    assert!(made.root.resources.is_empty());
    let id = made.root.export_id.clone();

    ensure_draft(&mut none, &Some("Other".to_string())).unwrap();
    assert_eq!(none.as_ref().unwrap().name, "Eld");
    assert_eq!(none.as_ref().unwrap().root.export_id, id);
}
