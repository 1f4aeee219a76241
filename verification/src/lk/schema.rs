//! The records of a `.lk` world file, held as plain values.

use vstd::prelude::*;
use crate::json::JsonValue;

verus! {

/// The root of a world file.
#[derive(Debug, Clone)]
pub struct LkRoot {
    pub version: u32,
    pub export_id: String,
    pub exported_at: String,
    pub resources: Vec<Resource>,
    pub calendars: Vec<Calendar>,
    pub resource_count: usize,
    pub hash: String,
}

/// A resource: a page of the world with its documents and properties.
#[derive(Debug, Clone)]
pub struct Resource {
    pub schema_version: u32,
    pub id: String,
    pub name: String,
    pub parent_id: Option<String>,
    pub pos: String,
    pub created_by: String,
    pub is_hidden: bool,
    pub is_locked: bool,
    pub show_property_bar: bool,
    pub icon_color: Option<String>,
    pub icon_glyph: Option<String>,
    pub icon_shape: Option<String>,
    pub aliases: Vec<String>,
    pub tags: Vec<String>,
    pub documents: Vec<Document>,
    pub properties: Vec<Property>,
    pub banner: Banner,
}

/// A document of a resource: a page, a map, a timeline or a board.
#[derive(Debug, Clone)]
pub struct Document {
    pub id: String,
    pub name: String,
    pub doc_type: String,
    pub locator_id: String,
    pub pos: String,
    pub is_hidden: bool,
    pub is_first: bool,
    pub is_full_width: Option<bool>,
    pub created_at: String,
    pub updated_at: String,
    pub transforms: Vec<JsonValue>,
    pub sources: Vec<Source>,
    pub presentation: Option<Presentation>,
    pub content: Option<JsonValue>,
    pub map: Option<MapData>,
    pub calendar_id: Option<String>,
}

/// A property block of a resource.
#[derive(Debug, Clone)]
pub struct Property {
    pub id: String,
    pub pos: String,
    pub prop_type: String,
    pub title: String,
    pub is_hidden: Option<bool>,
    pub is_title_hidden: Option<bool>,
    pub data: Option<JsonValue>,
}

#[derive(Debug, Clone)]
pub struct Banner {
    pub enabled: bool,
    pub url: String,
    pub y_position: i64,
}

#[derive(Debug, Clone)]
pub struct MapData {
    pub locator_id: String,
    pub map_id: String,
    pub min_x: i64,
    pub max_x: i64,
    pub min_y: i64,
    pub max_y: i64,
    pub max_zoom: i64,
}

/// A custom calendar.
#[derive(Debug, Clone)]
pub struct Calendar {
    pub id: String,
    pub name: String,
    pub has_zero_year: bool,
    pub max_minutes: i64,
    pub months: Vec<Month>,
    pub leap_days: Vec<JsonValue>,
    pub weekdays: Vec<Weekday>,
    pub epoch_weekday: u32,
    pub week_resets_each_month: bool,
    pub hours_in_day: u32,
    pub minutes_in_hour: u32,
    pub negative_era: Option<Era>,
    pub positive_eras: Vec<Era>,
    pub moons: Vec<JsonValue>,
    pub format: CalendarFormat,
    pub half_clock: bool,
}

#[derive(Debug, Clone)]
pub struct Month {
    pub id: String,
    pub name: String,
    pub is_intercalary: bool,
    pub length: u32,
    pub interval: Option<u32>,
    pub offset: Option<i32>,
}

#[derive(Debug, Clone)]
pub struct Weekday {
    pub id: String,
    pub name: String,
}

#[derive(Debug, Clone)]
pub struct Era {
    pub id: String,
    pub name: String,
    pub abbr: String,
    pub hide_abbr: bool,
    pub starts_at: Option<JsonValue>,
    pub reset_mode: Option<String>,
}

#[derive(Debug, Clone)]
pub struct CalendarFormat {
    pub id: String,
    pub year: String,
    pub month: String,
    pub day: String,
    pub time: String,
}

/// The content of a timeline document.
#[derive(Debug, Clone)]
pub struct TimelineContent {
    pub lanes: Vec<Lane>,
    pub events: Vec<TimelineEvent>,
}

#[derive(Debug, Clone)]
pub struct Lane {
    pub id: String,
    pub name: String,
    pub pos: String,
    pub size: JsonValue,
}

/// An event of a timeline; its opacity is a JSON number, held as its text.
#[derive(Debug, Clone)]
pub struct TimelineEvent {
    pub id: String,
    pub lane_id: String,
    pub event_type: String,
    pub pos: String,
    pub detail: Option<JsonValue>,
    pub start: i64,
    pub end: Option<i64>,
    pub name: String,
    pub icon_glyph: Option<String>,
    pub color: Option<String>,
    pub image_url: Option<String>,
    pub image_fit: Option<String>,
    pub opacity: Option<String>,
    pub is_synced: bool,
    pub data: Option<JsonValue>,
}

#[derive(Debug, Clone)]
pub struct Source {
    pub id: String,
    pub uri: String,
    pub source_type: String,
    pub created_at: String,
    pub updated_at: String,
    pub resource_id: String,
    pub document_id: String,
}

#[derive(Debug, Clone)]
pub struct Presentation {
    pub document_type: String,
    pub calibration: Option<Calibration>,
    pub default_mode: Option<String>,
    pub disallowed_modes: Option<Vec<String>>,
}

/// Map calibration; its numbers are JSON numbers, held as their text.
#[derive(Debug, Clone)]
pub struct Calibration {
    pub real_units_per_map_unit: String,
    pub unit: String,
    pub calibration_distance: String,
    pub calibration_map_distance: String,
}

/// The content of a board (whiteboard) document: its records.
#[derive(Debug, Clone)]
pub struct BoardContent {
    pub shapes: Vec<JsonValue>,
    pub bindings: Vec<JsonValue>,
    pub shapes_v2: Vec<BoardRecord>,
}

#[derive(Debug, Clone)]
pub struct BoardRecord {
    pub key: String,
    pub val: JsonValue,
}

} // verus!
