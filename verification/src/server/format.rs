//! The markdown views of resources and documents that the tools return.

use vstd::prelude::*;
use crate::json::{JsonValue, Json, get_str};
use crate::text::{join_spec, str_views, starts_with, find_char, cat, copy_str, chars_of, string_of_range, int_dec, i64_to_string, trim_end_spec};
use crate::lk::schema::{Resource, Document, Property, TimelineContent, TimelineEvent, Lane};
use crate::prosemirror::to_markdown::{to_markdown, to_markdown_spec};

verus! {

// ---------------------------------------------------------------------------
// Joining strings
// ---------------------------------------------------------------------------

/// The strings joined with `sep` between them (`[String]::join`).
pub fn join_strings(parts: &Vec<String>, sep: &str) -> (r: String)
    ensures
        r@ == join_spec(str_views(parts@), sep@),
{
    let ghost ps = str_views(parts@);
    let mut out = String::new();
    let mut i: usize = 0;
    while i < parts.len()
        invariant
            i <= parts.len(),
            ps == str_views(parts@),
            out@ == join_spec(ps.take(i as int), sep@),
        decreases parts.len() - i,
    {
        let ghost before = out@;
        if i > 0 {
            out.push_str(sep);
        }
        out.push_str(parts[i].as_str());
        proof {
            let t = ps.take(i + 1);
            assert(t.drop_last() =~= ps.take(i as int));
            assert(t.last() == parts@[i as int]@);
            if i == 0 {
                assert(t.len() == 1);
            }
        }
        i = i + 1;
    }
    assert(ps.take(parts.len() as int) =~= ps);
    out
}

// ---------------------------------------------------------------------------
// Links in map pins
// ---------------------------------------------------------------------------

/// The resource id of a `lk://resources/{id}/docs/{id}` link: what follows
/// the prefix, up to the next `/`.
pub open spec fn uri_resource_id(uri: Seq<char>) -> Option<Seq<char>> {
    let p = "lk://resources/"@;
    if starts_with(uri, p) {
        let rest = uri.skip(p.len() as int);
        Some(rest.take(find_char(rest, '/')))
    } else {
        None
    }
}

/// The resource id of a resource link, if `uri` is one.
pub fn extract_resource_id_from_uri(uri: &str) -> (r: Option<String>)
    ensures
        opt_view(r) == uri_resource_id(uri@),
{
    let cs = chars_of(uri);
    let p = chars_of("lk://resources/");
    proof {
        reveal_strlit("lk://resources/");
    }
    if !crate::text::starts_with_chars(&cs, &p) {
        return None;
    }
    let k = crate::text::find_char_from(&cs, p.len(), '/');
    proof {
        crate::text::lemma_find_char(cs@.skip(p.len() as int), '/');
        assert(cs@.subrange(p.len() as int, k as int) =~= cs@.skip(p.len() as int).take(
            k - p.len(),
        ));
    }
    Some(string_of_range(&cs, p.len(), k))
}

pub open spec fn opt_view(o: Option<String>) -> Option<Seq<char>> {
    match o {
        Some(s) => Some(s@),
        None => None,
    }
}

// ---------------------------------------------------------------------------
// Property values
// ---------------------------------------------------------------------------

/// The strings among `a`, in order.
pub open spec fn str_items(a: Seq<Json>) -> Seq<Seq<char>>
    decreases a.len(),
{
    if a.len() == 0 {
        seq![]
    } else {
        let r = str_items(a.drop_last());
        match a.last() {
            Json::Str(s) => r.push(s),
            _ => r,
        }
    }
}

/// How a property's data is shown: a string as it is; an array by its strings
/// joined with `, `; an object by its string `value`, else its string `url`;
/// anything else by `compact`, its compact JSON text.
pub open spec fn prop_value(v: Json, compact: Seq<char>) -> Seq<char> {
    match v {
        Json::Str(s) => s,
        Json::Array(a) => join_spec(str_items(a), ", "@),
        Json::Object(_, _) => match get_str(v, "value"@) {
            Some(s) => s,
            None => match get_str(v, "url"@) {
                Some(u) => u,
                None => compact,
            },
        },
        _ => compact,
    }
}

/// The text shown for a property's data; `compact` is the compact JSON text
/// of `value` (`serde_json::to_string`), used where no string can be shown.
pub fn format_property_value(value: &JsonValue, compact: &str) -> (r: String)
    ensures
        r@ == prop_value(value@, compact@),
{
    match value {
        JsonValue::Str(s) => s.clone(),
        JsonValue::Array(arr) => {
            let ghost a = value@->Array_0;
            let mut items: Vec<String> = Vec::new();
            let mut i: usize = 0;
            while i < arr.len()
                invariant
                    i <= arr.len(),
                    a == value@->Array_0,
                    a.len() == arr.len(),
                    forall|j: int| 0 <= j < arr.len() ==> #[trigger] a[j] == arr@[j]@,
                    str_views(items@) == str_items(a.take(i as int)),
                decreases arr.len() - i,
            {
                assert(a.take(i + 1).drop_last() =~= a.take(i as int));
                assert(a.take(i + 1).last() == arr@[i as int]@);
                match &arr[i] {
                    JsonValue::Str(s) => {
                        let ghost before = items@;
                        items.push(s.clone());
                        assert(str_views(items@) =~= str_views(before).push(s@));
                    },
                    _ => {},
                }
                i = i + 1;
            }
            assert(a.take(arr.len() as int) =~= a);
            join_strings(&items, ", ")
        },
        JsonValue::Object(_) => {
            if let Some(v) = value.get_str("value") {
                return v.clone();
            }
            if let Some(u) = value.get_str("url") {
                return u.clone();
            }
            copy_str(compact)
        },
        _ => copy_str(compact),
    }
}

// ---------------------------------------------------------------------------
// Resources
// ---------------------------------------------------------------------------

/// What the caller supplies for a document beside its own fields: the text
/// of a map or board document, rendered where its numbers are formatted; or
/// the parsed content of a timeline document.
#[derive(Debug, Clone)]
pub enum DocExtra {
    Plain,
    Rendered(String),
    Timeline(TimelineContent),
}

pub open spec fn hidden_tag(h: bool) -> Seq<char> {
    if h {
        " *(hidden)*"@
    } else {
        seq![]
    }
}

pub open spec fn joined_line(label: Seq<char>, items: Seq<String>) -> Seq<char> {
    if items.len() > 0 {
        label + join_spec(str_views(items), ", "@) + "\n"@
    } else {
        seq![]
    }
}

/// The metadata lines that open a resource's view.
pub open spec fn header_text(r: Resource) -> Seq<char> {
    "# "@ + r.name@ + "\n\n"@ + "**ID:** "@ + r.id@ + "\n"@ + match r.parent_id {
        Some(p) => "**Parent ID:** "@ + p@ + "\n"@,
        None => seq![],
    } + joined_line("**Tags:** "@, r.tags@) + joined_line("**Aliases:** "@, r.aliases@)
}

/// The line of one property, or nothing: tags and aliases are shown above,
/// and a property without data, or whose value shows as nothing or `{}`,
/// is left out.
pub open spec fn prop_line(p: Property, compact: Seq<char>) -> Seq<char> {
    if p.prop_type@ == "TAGS"@ || p.prop_type@ == "ALIAS"@ {
        seq![]
    } else {
        match p.data {
            None => seq![],
            Some(d) => {
                let v = prop_value(d@, compact);
                if v.len() > 0 && v != "{}"@ {
                    "**"@ + p.title@ + hidden_tag(p.is_hidden == Some(true)) + ":** "@ + v + "\n"@
                } else {
                    seq![]
                }
            },
        }
    }
}

pub open spec fn text_at(cs: Seq<String>, i: int) -> Seq<char> {
    if 0 <= i < cs.len() {
        cs[i]@
    } else {
        seq![]
    }
}

pub open spec fn props_text(ps: Seq<Property>, cs: Seq<String>) -> Seq<char>
    decreases ps.len(),
{
    if ps.len() == 0 {
        seq![]
    } else {
        props_text(ps.drop_last(), cs) + prop_line(ps.last(), text_at(cs, ps.len() - 1))
    }
}

pub open spec fn event_line(e: TimelineEvent) -> Seq<char> {
    "- "@ + e.name@ + " ("@ + int_dec(e.start as int) + match e.end {
        Some(end) => " to "@ + int_dec(end as int),
        None => seq![],
    } + ")\n"@
}

pub open spec fn lane_lines(ls: Seq<Lane>) -> Seq<char>
    decreases ls.len(),
{
    if ls.len() == 0 {
        seq![]
    } else {
        lane_lines(ls.drop_last()) + "- "@ + ls.last().name@ + "\n"@
    }
}

pub open spec fn event_lines(es: Seq<TimelineEvent>) -> Seq<char>
    decreases es.len(),
{
    if es.len() == 0 {
        seq![]
    } else {
        event_lines(es.drop_last()) + event_line(es.last())
    }
}

/// The lanes and events of a timeline.
pub open spec fn timeline_text(t: TimelineContent) -> Seq<char> {
    (if t.lanes.len() > 0 {
        "**Lanes:**\n"@ + lane_lines(t.lanes@) + "\n"@
    } else {
        seq![]
    }) + (if t.events.len() > 0 {
        "**Events:**\n"@ + event_lines(t.events@) + "\n"@
    } else {
        seq![]
    })
}

pub open spec fn extra_at(es: Seq<DocExtra>, i: int) -> DocExtra {
    if 0 <= i < es.len() {
        es[i]
    } else {
        DocExtra::Plain
    }
}

/// The section of one document: a page by its markdown (under its name when
/// the resource has several documents); a map or board by its rendered
/// text; a timeline by its name, calendar, lanes and events.
pub open spec fn doc_section(d: Document, extra: DocExtra, multi: bool) -> Seq<char> {
    let ht = hidden_tag(d.is_hidden);
    if d.doc_type@ == "page"@ {
        (if multi {
            "## \u{1F4C4} "@ + d.name@ + ht + "\n\n"@
        } else {
            seq![]
        }) + match d.content {
            Some(c) => {
                let md = to_markdown_spec(c@);
                if md.len() > 0 {
                    md + "\n\n"@
                } else {
                    seq![]
                }
            },
            None => seq![],
        }
    } else if d.doc_type@ == "map"@ || d.doc_type@ == "board"@ {
        rendered_of(extra) + "\n\n"@
    } else if d.doc_type@ == "time"@ {
        "## \u{1F4C5} "@ + d.name@ + ht + "\n\n"@ + match d.calendar_id {
            Some(c) => "Calendar: "@ + c@ + "\n\n"@,
            None => seq![],
        } + match (d.content, extra) {
            (Some(_), DocExtra::Timeline(t)) => timeline_text(t),
            _ => seq![],
        }
    } else {
        seq![]
    }
}

pub open spec fn rendered_of(e: DocExtra) -> Seq<char> {
    match e {
        DocExtra::Rendered(s) => s@,
        _ => seq![],
    }
}

pub open spec fn docs_text(ds: Seq<Document>, es: Seq<DocExtra>, multi: bool) -> Seq<char>
    decreases ds.len(),
{
    if ds.len() == 0 {
        seq![]
    } else {
        docs_text(ds.drop_last(), es, multi) + doc_section(ds.last(), extra_at(es, ds.len() - 1), multi)
    }
}

/// The markdown view of a resource: its metadata, its properties, then its
/// documents, with trailing whitespace removed.
pub open spec fn resource_text(r: Resource, compacts: Seq<String>, extras: Seq<DocExtra>) -> Seq<char> {
    trim_end_spec(
        header_text(r) + props_text(r.properties@, compacts) + "\n"@ + docs_text(
            r.documents@,
            extras,
            r.documents.len() > 1,
        ),
    )
}

fn push_hidden(out: &mut String, h: bool)
    ensures
        final(out)@ == old(out)@ + hidden_tag(h),
{
    if h {
        out.push_str(" *(hidden)*");
    }
}

fn push_joined_line(out: &mut String, label: &str, items: &Vec<String>)
    ensures
        final(out)@ == old(out)@ + joined_line(label@, items@),
{
    if items.len() > 0 {
        out.push_str(label);
        let j = join_strings(items, ", ");
        out.push_str(j.as_str());
        out.push_str("\n");
    }
}

fn header_of(r: &Resource) -> (s: String)
    ensures
        s@ == header_text(*r),
{
    let mut out = String::new();
    out.push_str("# ");
    out.push_str(r.name.as_str());
    out.push_str("\n\n");
    out.push_str("**ID:** ");
    out.push_str(r.id.as_str());
    out.push_str("\n");
    if let Some(p) = &r.parent_id {
        out.push_str("**Parent ID:** ");
        out.push_str(p.as_str());
        out.push_str("\n");
    }
    push_joined_line(&mut out, "**Tags:** ", &r.tags);
    push_joined_line(&mut out, "**Aliases:** ", &r.aliases);
    out
}

fn prop_line_of(p: &Property, compact: &str) -> (s: String)
    ensures
        s@ == prop_line(*p, compact@),
{
    let mut out = String::new();
    if crate::text::str_eq(p.prop_type.as_str(), "TAGS") || crate::text::str_eq(
        p.prop_type.as_str(),
        "ALIAS",
    ) {
        return out;
    }
    let value = match &p.data {
        Some(v) => format_property_value(v, compact),
        None => {
            return out;
        },
    };
    if !crate::text::str_is_empty(value.as_str()) && !crate::text::str_eq(value.as_str(), "{}") {
        out.push_str("**");
        out.push_str(p.title.as_str());
        let hidden = match p.is_hidden {
            Some(h) => h,
            None => false,
        };
        push_hidden(&mut out, hidden);
        out.push_str(":** ");
        out.push_str(value.as_str());
        out.push_str("\n");
    }
    out
}

fn event_line_of(e: &TimelineEvent) -> (s: String)
    ensures
        s@ == event_line(*e),
{
    let mut out = String::new();
    out.push_str("- ");
    out.push_str(e.name.as_str());
    out.push_str(" (");
    let st = i64_to_string(e.start);
    out.push_str(st.as_str());
    if let Some(end) = e.end {
        out.push_str(" to ");
        let en = i64_to_string(end);
        out.push_str(en.as_str());
    }
    out.push_str(")\n");
    out
}

fn timeline_text_of(t: &TimelineContent) -> (s: String)
    ensures
        s@ == timeline_text(*t),
{
    let mut out = String::new();
    if t.lanes.len() > 0 {
        out.push_str("**Lanes:**\n");
        let ghost base = out@;
        let mut i: usize = 0;
        while i < t.lanes.len()
            invariant
                i <= t.lanes.len(),
                out@ == base + lane_lines(t.lanes@.take(i as int)),
            decreases t.lanes.len() - i,
        {
            out.push_str("- ");
            out.push_str(t.lanes[i].name.as_str());
            out.push_str("\n");
            assert(t.lanes@.take(i + 1).drop_last() =~= t.lanes@.take(i as int));
            i = i + 1;
        }
        assert(t.lanes@.take(t.lanes.len() as int) =~= t.lanes@);
        out.push_str("\n");
    }
    if t.events.len() > 0 {
        out.push_str("**Events:**\n");
        let ghost base = out@;
        let mut i: usize = 0;
        while i < t.events.len()
            invariant
                i <= t.events.len(),
                out@ == base + event_lines(t.events@.take(i as int)),
            decreases t.events.len() - i,
        {
            let line = event_line_of(&t.events[i]);
            out.push_str(line.as_str());
            assert(t.events@.take(i + 1).drop_last() =~= t.events@.take(i as int));
            i = i + 1;
        }
        assert(t.events@.take(t.events.len() as int) =~= t.events@);
        out.push_str("\n");
    }
    out
}

fn section_of(d: &Document, extra: &DocExtra, multi: bool) -> (s: String)
    ensures
        s@ == doc_section(*d, *extra, multi),
{
    let mut out = String::new();
    if crate::text::str_eq(d.doc_type.as_str(), "page") {
        if multi {
            out.push_str("## \u{1F4C4} ");
            out.push_str(d.name.as_str());
            push_hidden(&mut out, d.is_hidden);
            out.push_str("\n\n");
        }
        if let Some(c) = &d.content {
            let md = to_markdown(c);
            if !crate::text::str_is_empty(md.as_str()) {
                out.push_str(md.as_str());
                out.push_str("\n\n");
            }
        }
    } else if crate::text::str_eq(d.doc_type.as_str(), "map") || crate::text::str_eq(
        d.doc_type.as_str(),
        "board",
    ) {
        if let DocExtra::Rendered(t) = extra {
            out.push_str(t.as_str());
        }
        out.push_str("\n\n");
    } else if crate::text::str_eq(d.doc_type.as_str(), "time") {
        out.push_str("## \u{1F4C5} ");
        out.push_str(d.name.as_str());
        push_hidden(&mut out, d.is_hidden);
        out.push_str("\n\n");
        if let Some(c) = &d.calendar_id {
            out.push_str("Calendar: ");
            out.push_str(c.as_str());
            out.push_str("\n\n");
        }
        if d.content.is_some() {
            if let DocExtra::Timeline(t) = extra {
                let tt = timeline_text_of(t);
                out.push_str(tt.as_str());
            }
        }
    }
    out
}

/// The markdown view of a resource. `compacts[i]` is the compact JSON text
/// of the data of property `i`, and `extras[i]` what the caller supplies for
/// document `i` (a missing entry counts as nothing supplied).
pub fn format_resource(resource: &Resource, compacts: &Vec<String>, extras: &Vec<DocExtra>) -> (r:
    String)
    ensures
        r@ == resource_text(*resource, compacts@, extras@),
{
    let mut out = header_of(resource);
    let ghost h = out@;
    let ps = &resource.properties;
    let mut i: usize = 0;
    while i < ps.len()
        invariant
            i <= ps.len(),
            out@ == h + props_text(ps@.take(i as int), compacts@),
        decreases ps.len() - i,
    {
        let line = if i < compacts.len() {
            prop_line_of(&ps[i], compacts[i].as_str())
        } else {
            proof {
                reveal_strlit("");
            }
            prop_line_of(&ps[i], "")
        };
        out.push_str(line.as_str());
        assert(ps@.take(i + 1).drop_last() =~= ps@.take(i as int));
        i = i + 1;
    }
    assert(ps@.take(ps.len() as int) =~= ps@);
    out.push_str("\n");
    let ghost base = out@;
    let ds = &resource.documents;
    let multi = ds.len() > 1;
    let mut j: usize = 0;
    while j < ds.len()
        invariant
            j <= ds.len(),
            multi == (ds.len() > 1),
            out@ == base + docs_text(ds@.take(j as int), extras@, multi),
        decreases ds.len() - j,
    {
        let sec = if j < extras.len() {
            section_of(&ds[j], &extras[j], multi)
        } else {
            section_of(&ds[j], &DocExtra::Plain, multi)
        };
        out.push_str(sec.as_str());
        assert(ds@.take(j + 1).drop_last() =~= ds@.take(j as int));
        j = j + 1;
    }
    assert(ds@.take(ds.len() as int) =~= ds@);
    let cs = chars_of(out.as_str());
    let t = crate::text::trim_end_chars(&cs);
    crate::text::string_of(&t)
}

// ---------------------------------------------------------------------------
// One document
// ---------------------------------------------------------------------------

pub open spec fn bool_text(b: bool) -> Seq<char> {
    if b {
        "true"@
    } else {
        "false"@
    }
}

/// A single document with its metadata: a page's content as markdown,
/// another document's as `pretty`, its pretty-printed JSON.
pub open spec fn document_text(d: Document, pretty: Seq<char>) -> Seq<char> {
    trim_end_spec(
        "**Document:** "@ + d.name@ + "\n"@ + "**ID:** "@ + d.id@ + "\n"@ + "**Type:** "@
            + d.doc_type@ + "\n"@ + "**Hidden:** "@ + bool_text(d.is_hidden) + "\n\n"@
            + match d.content {
            Some(c) => if d.doc_type@ == "page"@ {
                to_markdown_spec(c@)
            } else {
                pretty
            },
            None => seq![],
        },
    )
}

/// The view of one document with its metadata; `pretty` is the
/// pretty-printed JSON of its content, shown for documents other than pages.
pub fn format_document(doc: &Document, pretty: &str) -> (r: String)
    ensures
        r@ == document_text(*doc, pretty@),
{
    let mut out = String::new();
    out.push_str("**Document:** ");
    out.push_str(doc.name.as_str());
    out.push_str("\n");
    out.push_str("**ID:** ");
    out.push_str(doc.id.as_str());
    out.push_str("\n");
    out.push_str("**Type:** ");
    out.push_str(doc.doc_type.as_str());
    out.push_str("\n");
    out.push_str("**Hidden:** ");
    if doc.is_hidden {
        out.push_str("true");
    } else {
        out.push_str("false");
    }
    out.push_str("\n\n");
    if let Some(c) = &doc.content {
        if crate::text::str_eq(doc.doc_type.as_str(), "page") {
            let md = to_markdown(c);
            out.push_str(md.as_str());
        } else {
            out.push_str(pretty);
        }
    }
    let cs = chars_of(out.as_str());
    let t = crate::text::trim_end_chars(&cs);
    crate::text::string_of(&t)
}

} // verus!
