//! The summary of a map document: its image and bounds, its scale, and its
//! pins, regions, paths and labels.

use vstd::prelude::*;
use base64::Engine;
use crate::lk::schema::Document;
use crate::server::format::{extract_resource_id_from_uri, join_strings, uri_resource_id};
use crate::text::{i64_to_string, int_dec, join_spec, nat_dec, str_eq, str_views, usize_to_string};

verus! {

/// A feature of a map as it is shown: its coordinates and widths are
/// formatted by the caller (`pos` as `"{x:.1}, {y:.1}"`, each vertex and
/// waypoint as `"({x:.1}, {y:.1})"`, a stroke width with `{}`).
#[derive(Debug, Clone)]
pub struct MapFeatureView {
    pub name: String,
    pub feature_type: Option<String>,
    pub pos: String,
    pub uri: Option<String>,
    pub icon_glyph: Option<String>,
    pub fill_style: Option<String>,
    pub border_style: Option<String>,
    pub polygon: Option<Vec<String>>,
    pub stroke_style: Option<String>,
    pub stroke_width: Option<String>,
    pub polyline: Option<Vec<String>>,
    pub label_size: Option<String>,
}

pub open spec fn or_text(o: Option<String>, d: Seq<char>) -> Seq<char> {
    match o {
        Some(s) => s@,
        None => d,
    }
}

/// Points joined with arrows; nothing when there are none.
pub open spec fn points_text(o: Option<Vec<String>>) -> Seq<char> {
    match o {
        Some(v) => join_spec(str_views(v@), " \u{2192} "@),
        None => seq![],
    }
}

/// The kind of a feature: a pin has no type.
pub open spec fn is_kind(f: MapFeatureView, kind: Option<Seq<char>>) -> bool {
    match (f.feature_type, kind) {
        (None, None) => true,
        (Some(t), Some(k)) => t@ == k,
        _ => false,
    }
}

pub open spec fn count_kind(fs: Seq<MapFeatureView>, kind: Option<Seq<char>>) -> nat
    decreases fs.len(),
{
    if fs.len() == 0 {
        0
    } else {
        count_kind(fs.drop_last(), kind) + if is_kind(fs.last(), kind) {
            1nat
        } else {
            0nat
        }
    }
}

pub open spec fn pin_row(f: MapFeatureView) -> Seq<char> {
    let link = match f.uri {
        Some(u) => match uri_resource_id(u@) {
            Some(id) => id,
            None => "\u{2014}"@,
        },
        None => "\u{2014}"@,
    };
    "| "@ + f.name@ + " | ("@ + f.pos@ + ") | "@ + or_text(f.icon_glyph, "\u{2014}"@) + " | "@ + link
        + " |\n"@
}

pub open spec fn region_line(f: MapFeatureView) -> Seq<char> {
    "- **"@ + f.name@ + "** ("@ + or_text(f.fill_style, "solid"@) + " fill, "@ + or_text(
        f.border_style,
        "solid"@,
    ) + " border): "@ + points_text(f.polygon) + "\n"@
}

pub open spec fn path_line(f: MapFeatureView) -> Seq<char> {
    "- **"@ + f.name@ + "** ("@ + or_text(f.stroke_style, "solid"@) + ", width "@ + or_text(
        f.stroke_width,
        "1"@,
    ) + "): "@ + points_text(f.polyline) + "\n"@
}

pub open spec fn label_line(f: MapFeatureView) -> Seq<char> {
    "- "@ + f.name@ + " ("@ + or_text(f.label_size, "medium"@) + ", at "@ + f.pos@ + ")\n"@
}

/// The line of a feature in its section.
pub open spec fn feature_line(f: MapFeatureView, kind: Option<Seq<char>>) -> Seq<char> {
    match kind {
        None => pin_row(f),
        Some(k) => if k == "region"@ {
            region_line(f)
        } else if k == "path"@ {
            path_line(f)
        } else {
            label_line(f)
        },
    }
}

/// The line of a path lists the points of its polyline, joined by arrows, at
/// its end; the polygon plays no part in it (two paths that differ only in
/// their polygons have the same line).
pub proof fn law_path_line_lists_polyline(f: MapFeatureView, g: MapFeatureView)
    requires
        g.name == f.name,
        g.stroke_style == f.stroke_style,
        g.stroke_width == f.stroke_width,
        g.polyline == f.polyline,
    ensures
        crate::text::ends_with(
            feature_line(f, Some("path"@)),
            match f.polyline {
                Some(v) => join_spec(str_views(v@), " \u{2192} "@),
                None => seq![],
            } + "\n"@,
        ),
        feature_line(g, Some("path"@)) == feature_line(f, Some("path"@)),
        f.polyline matches Some(v) ==> (v@.len() == 2 ==> crate::text::ends_with(
            feature_line(f, Some("path"@)),
            v@[0]@ + " \u{2192} "@ + v@[1]@ + "\n"@,
        )),
{
    reveal_strlit("path");
    reveal_strlit("region");
    assert("path"@.len() != "region"@.len());
    let pre = "- **"@ + f.name@ + "** ("@ + or_text(f.stroke_style, "solid"@) + ", width "@ + or_text(
        f.stroke_width,
        "1"@,
    ) + "): "@;
    let pts = match f.polyline {
        Some(v) => join_spec(str_views(v@), " \u{2192} "@),
        None => seq![],
    };
    let line = feature_line(f, Some("path"@));
    assert(line == pre + pts + "\n"@);
    assert(line.skip(line.len() - (pts + "\n"@).len()) =~= pts + "\n"@);
    if let Some(v) = f.polyline {
        if v@.len() == 2 {
            let sv = str_views(v@);
            assert(sv.drop_last().len() == 1);
            assert(join_spec(sv.drop_last(), " \u{2192} "@) == sv[0]);
            assert(pts == sv[0] + " \u{2192} "@ + sv[1]);
            assert(pts + "\n"@ =~= v@[0]@ + " \u{2192} "@ + v@[1]@ + "\n"@);
        }
    }
}

/// The line of a region lists the points of its polygon, joined by arrows,
/// at its end; the polyline plays no part in it.
pub proof fn law_region_line_lists_polygon(f: MapFeatureView, g: MapFeatureView)
    requires
        g.name == f.name,
        g.fill_style == f.fill_style,
        g.border_style == f.border_style,
        g.polygon == f.polygon,
    ensures
        crate::text::ends_with(
            feature_line(f, Some("region"@)),
            match f.polygon {
                Some(v) => join_spec(str_views(v@), " \u{2192} "@),
                None => seq![],
            } + "\n"@,
        ),
        feature_line(g, Some("region"@)) == feature_line(f, Some("region"@)),
{
    let pts = match f.polygon {
        Some(v) => join_spec(str_views(v@), " \u{2192} "@),
        None => seq![],
    };
    let pre = "- **"@ + f.name@ + "** ("@ + or_text(f.fill_style, "solid"@) + " fill, "@ + or_text(
        f.border_style,
        "solid"@,
    ) + " border): "@;
    let line = feature_line(f, Some("region"@));
    assert(line == pre + pts + "\n"@);
    assert(line.skip(line.len() - (pts + "\n"@).len()) =~= pts + "\n"@);
}

/// A label's line names it, then its size (medium by default) and position:
/// `- name (size, at pos)`.
pub proof fn law_label_line(f: MapFeatureView)
    ensures
        feature_line(f, Some("label"@)) == "- "@ + f.name@ + " ("@ + match f.label_size {
            Some(s) => s@,
            None => "medium"@,
        } + ", at "@ + f.pos@ + ")\n"@,
{
    reveal_strlit("label");
    reveal_strlit("region");
    reveal_strlit("path");
    assert("label"@.len() == 5 && "region"@.len() == 6 && "path"@.len() == 4);
}

pub open spec fn kind_lines(fs: Seq<MapFeatureView>, kind: Option<Seq<char>>) -> Seq<char>
    decreases fs.len(),
{
    if fs.len() == 0 {
        seq![]
    } else {
        kind_lines(fs.drop_last(), kind) + if is_kind(fs.last(), kind) {
            feature_line(fs.last(), kind)
        } else {
            seq![]
        }
    }
}

/// The section of the features of one kind, when there are any.
pub open spec fn section(fs: Seq<MapFeatureView>, kind: Option<Seq<char>>, title: Seq<char>, head: Seq<char>) -> Seq<char> {
    let n = count_kind(fs, kind);
    if n > 0 {
        "\n**"@ + title + " ("@ + nat_dec(n) + "):**\n"@ + head + kind_lines(fs, kind)
    } else {
        seq![]
    }
}

pub open spec fn features_text(fs: Seq<MapFeatureView>) -> Seq<char> {
    section(
        fs,
        None,
        "Pins"@,
        "| Name | Position | Icon | Link |\n|------|----------|------|------|\n"@,
    ) + section(fs, Some("region"@), "Regions"@, seq![]) + section(fs, Some("path"@), "Paths"@, seq![])
        + section(fs, Some("label"@), "Labels"@, seq![])
}

pub open spec fn bounds_text(d: Document) -> Seq<char> {
    match d.map {
        Some(m) => "Map image: "@ + m.map_id@ + "\n"@ + "Bounds: ("@ + int_dec(m.min_x as int) + ", "@
            + int_dec(m.min_y as int) + ") to ("@ + int_dec(m.max_x as int) + ", "@ + int_dec(
            m.max_y as int,
        ) + ")\n"@,
        None => seq![],
    }
}

pub open spec fn scale_text(d: Document, units: Seq<char>) -> Seq<char> {
    match d.presentation {
        Some(p) => match p.calibration {
            Some(c) => "Scale: 1 map unit = "@ + units + " "@ + c.unit@ + "\n"@,
            None => seq![],
        },
        None => seq![],
    }
}

/// The markdown summary of a map document. `units` is the calibration's
/// map-unit length as the caller formatted it (`{}`), and `features` the
/// document's features, when its content reads as map features.
pub open spec fn map_text(
    d: Document,
    hidden_tag: Seq<char>,
    units: Seq<char>,
    features: Option<Vec<MapFeatureView>>,
) -> Seq<char> {
    "## \u{1F5FA}\u{FE0F} "@ + d.name@ + hidden_tag + "\n\n"@ + bounds_text(d) + scale_text(d, units)
        + match features {
        Some(fs) => features_text(fs@),
        None => seq![],
    }
}

fn opt_text(o: &Option<String>, d: &str) -> (r: String)
    ensures
        r@ == or_text(*o, d@),
{
    match o {
        Some(s) => s.clone(),
        None => crate::text::copy_str(d),
    }
}

fn points_of(o: &Option<Vec<String>>) -> (r: String)
    ensures
        r@ == points_text(*o),
{
    match o {
        Some(v) => join_strings(v, " \u{2192} "),
        None => String::new(),
    }
}

fn kind_of(f: &MapFeatureView, kind: Option<&str>) -> (b: bool)
    ensures
        b == is_kind(
            *f,
            match kind {
                Some(k) => Some(k@),
                None => None,
            },
        ),
{
    match (&f.feature_type, kind) {
        (None, None) => true,
        (Some(t), Some(k)) => str_eq(t.as_str(), k),
        _ => false,
    }
}

fn feature_line_of(f: &MapFeatureView, kind: Option<&str>) -> (r: String)
    ensures
        r@ == feature_line(
            *f,
            match kind {
                Some(k) => Some(k@),
                None => None,
            },
        ),
{
    let mut out = String::new();
    match kind {
        None => {
            let link = match &f.uri {
                Some(u) => match extract_resource_id_from_uri(u.as_str()) {
                    Some(id) => id,
                    None => crate::text::copy_str("\u{2014}"),
                },
                None => crate::text::copy_str("\u{2014}"),
            };
            out.push_str("| ");
            out.push_str(f.name.as_str());
            out.push_str(" | (");
            out.push_str(f.pos.as_str());
            out.push_str(") | ");
            out.push_str(opt_text(&f.icon_glyph, "\u{2014}").as_str());
            out.push_str(" | ");
            out.push_str(link.as_str());
            out.push_str(" |\n");
        },
        Some(k) => {
            if str_eq(k, "region") {
                out.push_str("- **");
                out.push_str(f.name.as_str());
                out.push_str("** (");
                out.push_str(opt_text(&f.fill_style, "solid").as_str());
                out.push_str(" fill, ");
                out.push_str(opt_text(&f.border_style, "solid").as_str());
                out.push_str(" border): ");
                out.push_str(points_of(&f.polygon).as_str());
                out.push_str("\n");
            } else if str_eq(k, "path") {
                out.push_str("- **");
                out.push_str(f.name.as_str());
                out.push_str("** (");
                out.push_str(opt_text(&f.stroke_style, "solid").as_str());
                out.push_str(", width ");
                out.push_str(opt_text(&f.stroke_width, "1").as_str());
                out.push_str("): ");
                out.push_str(points_of(&f.polyline).as_str());
                out.push_str("\n");
            } else {
                out.push_str("- ");
                out.push_str(f.name.as_str());
                out.push_str(" (");
                out.push_str(opt_text(&f.label_size, "medium").as_str());
                out.push_str(", at ");
                out.push_str(f.pos.as_str());
                out.push_str(")\n");
            }
        },
    }
    out
}

fn section_of(fs: &Vec<MapFeatureView>, kind: Option<&str>, title: &str, head: &str) -> (r: String)
    ensures
        r@ == section(
            fs@,
            match kind {
                Some(k) => Some(k@),
                None => None,
            },
            title@,
            head@,
        ),
{
    let ghost kv = match kind {
        Some(k) => Some(k@),
        None => None::<Seq<char>>,
    };
    let mut lines = String::new();
    let mut n: usize = 0;
    let mut i: usize = 0;
    while i < fs.len()
        invariant
            i <= fs.len(),
            n <= i,
            kv == match kind {
                Some(k) => Some(k@),
                None => None::<Seq<char>>,
            },
            n == count_kind(fs@.take(i as int), kv),
            lines@ == kind_lines(fs@.take(i as int), kv),
        decreases fs.len() - i,
    {
        assert(fs@.take(i + 1).drop_last() =~= fs@.take(i as int));
        assert(fs@.take(i + 1).last() == fs@[i as int]);
        if kind_of(&fs[i], kind) {
            let line = feature_line_of(&fs[i], kind);
            lines.push_str(line.as_str());
            n = n + 1;
        }
        i = i + 1;
    }
    assert(fs@.take(fs.len() as int) =~= fs@);
    let mut out = String::new();
    if n > 0 {
        out.push_str("\n**");
        out.push_str(title);
        out.push_str(" (");
        out.push_str(usize_to_string(n).as_str());
        out.push_str("):**\n");
        out.push_str(head);
        out.push_str(lines.as_str());
    }
    out
}

fn bounds_of(doc: &Document) -> (r: String)
    ensures
        r@ == bounds_text(*doc),
{
    let mut out = String::new();
    if let Some(m) = &doc.map {
        out.push_str("Map image: ");
        out.push_str(m.map_id.as_str());
        out.push_str("\n");
        out.push_str("Bounds: (");
        out.push_str(i64_to_string(m.min_x).as_str());
        out.push_str(", ");
        out.push_str(i64_to_string(m.min_y).as_str());
        out.push_str(") to (");
        out.push_str(i64_to_string(m.max_x).as_str());
        out.push_str(", ");
        out.push_str(i64_to_string(m.max_y).as_str());
        out.push_str(")\n");
    }
    out
}

fn scale_of(doc: &Document, units: &str) -> (r: String)
    ensures
        r@ == scale_text(*doc, units@),
{
    let mut out = String::new();
    if let Some(p) = &doc.presentation {
        if let Some(c) = &p.calibration {
            out.push_str("Scale: 1 map unit = ");
            out.push_str(units);
            out.push_str(" ");
            out.push_str(c.unit.as_str());
            out.push_str("\n");
        }
    }
    out
}

fn features_of(fs: &Vec<MapFeatureView>) -> (r: String)
    ensures
        r@ == features_text(fs@),
{
    proof {
        reveal_strlit("");
    }
    let head = "| Name | Position | Icon | Link |\n|------|----------|------|------|\n";
    let mut out = section_of(fs, None, "Pins", head);
    out.push_str(section_of(fs, Some("region"), "Regions", "").as_str());
    out.push_str(section_of(fs, Some("path"), "Paths", "").as_str());
    out.push_str(section_of(fs, Some("label"), "Labels", "").as_str());
    out
}

/// The markdown summary of a map document: its image and bounds, its scale
/// (`units` being the calibration's map-unit length as the caller formatted
/// it), and its pins, regions, paths and labels (`features`, when the
/// document's content reads as map features).
pub fn format_map_document(
    doc: &Document,
    hidden_tag: &str,
    units: &str,
    features: &Option<Vec<MapFeatureView>>,
) -> (r: String)
    ensures
        r@ == map_text(*doc, hidden_tag@, units@, *features),
{
    let mut out = String::new();
    out.push_str("## \u{1F5FA}\u{FE0F} ");
    out.push_str(doc.name.as_str());
    out.push_str(hidden_tag);
    out.push_str("\n\n");
    out.push_str(bounds_of(doc).as_str());
    out.push_str(scale_of(doc, units).as_str());
    if let Some(fs) = features {
        out.push_str(features_of(fs).as_str());
    }
    out
}

// ---------------------------------------------------------------------------
// The map image
// ---------------------------------------------------------------------------

/// The character of a six-bit value in the standard base64 alphabet
/// (RFC 4648): `A`-`Z`, `a`-`z`, `0`-`9`, `+`, `/`.
pub open spec fn b64_char(v: int) -> char {
    if v < 26 {
        (65 + v) as char
    } else if v < 52 {
        (97 + v - 26) as char
    } else if v < 62 {
        (48 + v - 52) as char
    } else if v == 62 {
        '+'
    } else {
        '/'
    }
}

/// Standard base64 with `=` padding (RFC 4648): each group of three bytes
/// as four characters, a last group of one or two bytes padded.
pub open spec fn base64_std(b: Seq<u8>) -> Seq<char>
    decreases b.len(),
{
    let x = if b.len() > 0 { b[0] as int } else { 0 };
    let y = if b.len() > 1 { b[1] as int } else { 0 };
    let z = if b.len() > 2 { b[2] as int } else { 0 };
    if b.len() == 0 {
        seq![]
    } else if b.len() == 1 {
        seq![b64_char(x / 4), b64_char((x % 4) * 16), '=', '=']
    } else if b.len() == 2 {
        seq![b64_char(x / 4), b64_char((x % 4) * 16 + y / 16), b64_char((y % 16) * 4), '=']
    } else {
        seq![b64_char(x / 4), b64_char((x % 4) * 16 + y / 16), b64_char((y % 16) * 4 + z / 64), b64_char(z % 64)]
            + base64_std(b.skip(3))
    }
}

/// `base64::engine::general_purpose::STANDARD.encode`: the standard
/// alphabet with padding, as `base64_std` states it.
#[verifier::external_body]
fn base64_encode(bytes: &[u8]) -> (r: String)
    ensures
        r@ == base64_std(bytes@),
{
    base64::engine::general_purpose::STANDARD.encode(bytes)
}

/// The bytes of a map image as the base64 text that goes with it.
pub fn map_image_data(bytes: &Vec<u8>) -> (r: String)
    ensures
        r@ == base64_std(bytes@),
{
    base64_encode(bytes.as_slice())
}

} // verus!
