//! The summary of a board (whiteboard) document: its shapes, bindings and
//! the graph that its arrows draw between labeled nodes.

use vstd::prelude::*;
use crate::json::{JsonValue, Json, get_str, get2_str};
use crate::lk::schema::{Document, BoardRecord};
use crate::lk::builder::{board_from_json, board_shape_ok, board_json_records, records_model};
use crate::text::{
    nat_dec, starts_with, str_views, str_leq, sort_strings, str_eq, copy_str, usize_to_string,
    str_is_empty,
};

verus! {

// ---------------------------------------------------------------------------
// What a record is
// ---------------------------------------------------------------------------

pub open spec fn or_default(o: Option<Seq<char>>, d: Seq<char>) -> Seq<char> {
    match o {
        Some(s) => s,
        None => d,
    }
}

/// A shape record of the given tldraw type.
pub open spec fn is_shape_of(v: Json, t: Seq<char>) -> bool {
    get_str(v, "typeName"@) == Some("shape"@) && get_str(v, "type"@) == Some(t)
}

pub open spec fn is_binding(v: Json) -> bool {
    get_str(v, "typeName"@) == Some("binding"@)
}

pub open spec fn count_shapes(vs: Seq<Json>, t: Seq<char>) -> nat
    decreases vs.len(),
{
    if vs.len() == 0 {
        0
    } else {
        count_shapes(vs.drop_last(), t) + if is_shape_of(vs.last(), t) {
            1nat
        } else {
            0nat
        }
    }
}

pub open spec fn count_bindings(vs: Seq<Json>) -> nat
    decreases vs.len(),
{
    if vs.len() == 0 {
        0
    } else {
        count_bindings(vs.drop_last()) + if is_binding(vs.last()) {
            1nat
        } else {
            0nat
        }
    }
}

/// The positions and scales of the records, as the caller formatted them:
/// `nums[i]` is `("{x:.0}, {y:.0}", "{scale:.1}")` for record `i`.
pub open spec fn xy_at(nums: Seq<(String, String)>, i: int) -> Seq<char> {
    if 0 <= i < nums.len() {
        nums[i].0@
    } else {
        seq![]
    }
}

pub open spec fn scale_at(nums: Seq<(String, String)>, i: int) -> Seq<char> {
    if 0 <= i < nums.len() {
        nums[i].1@
    } else {
        seq![]
    }
}

/// The table row of a geo shape; a shape without a label has none.
pub open spec fn geo_row(v: Json, xy: Seq<char>) -> Seq<char> {
    let label = or_default(get2_str(v, "props"@, "text"@), seq![]);
    if label.len() > 0 {
        "| "@ + label + " | "@ + or_default(get2_str(v, "props"@, "geo"@), "rectangle"@) + " | "@
            + or_default(get2_str(v, "props"@, "color"@), seq![]) + " | ("@ + xy + ") |\n"@
    } else {
        seq![]
    }
}

pub open spec fn geo_rows(vs: Seq<Json>, nums: Seq<(String, String)>) -> Seq<char>
    decreases vs.len(),
{
    if vs.len() == 0 {
        seq![]
    } else {
        geo_rows(vs.drop_last(), nums) + if is_shape_of(vs.last(), "geo"@) {
            geo_row(vs.last(), xy_at(nums, vs.len() - 1))
        } else {
            seq![]
        }
    }
}

pub open spec fn text_line(v: Json, xy: Seq<char>, scale: Seq<char>) -> Seq<char> {
    "- "@ + or_default(get2_str(v, "props"@, "text"@), "(empty)"@) + " (scale "@ + scale + ", at "@
        + xy + ")\n"@
}

pub open spec fn text_lines(vs: Seq<Json>, nums: Seq<(String, String)>) -> Seq<char>
    decreases vs.len(),
{
    if vs.len() == 0 {
        seq![]
    } else {
        text_lines(vs.drop_last(), nums) + if is_shape_of(vs.last(), "text"@) {
            text_line(vs.last(), xy_at(nums, vs.len() - 1), scale_at(nums, vs.len() - 1))
        } else {
            seq![]
        }
    }
}

// ---------------------------------------------------------------------------
// The graph of the arrows
// ---------------------------------------------------------------------------

/// An id without its `shape:` prefix.
pub open spec fn strip_shape(s: Seq<char>) -> Seq<char> {
    if starts_with(s, "shape:"@) {
        s.skip(6)
    } else {
        s
    }
}

/// The arrow a binding starts from.
pub open spec fn arrow_key(v: Json) -> Seq<char> {
    strip_shape(or_default(get_str(v, "fromId"@), seq![]))
}

/// The shape a binding points to.
pub open spec fn target_of(v: Json) -> Seq<char> {
    strip_shape(or_default(get_str(v, "toId"@), seq![]))
}

pub open spec fn terminal_of(v: Json) -> Seq<char> {
    or_default(get2_str(v, "props"@, "terminal"@), seq![])
}

/// The target of the last binding of arrow `a` at terminal `term`.
pub open spec fn last_target(vs: Seq<Json>, a: Seq<char>, term: Seq<char>) -> Option<Seq<char>>
    decreases vs.len(),
{
    if vs.len() == 0 {
        None
    } else {
        let v = vs.last();
        if is_binding(v) && arrow_key(v) == a && terminal_of(v) == term {
            Some(target_of(v))
        } else {
            last_target(vs.drop_last(), a, term)
        }
    }
}

/// The arrows that bindings start from, each once, in order of first use.
pub open spec fn arrow_keys(vs: Seq<Json>) -> Seq<Seq<char>>
    decreases vs.len(),
{
    if vs.len() == 0 {
        seq![]
    } else {
        let ks = arrow_keys(vs.drop_last());
        let v = vs.last();
        if is_binding(v) && !ks.contains(arrow_key(v)) {
            ks.push(arrow_key(v))
        } else {
            ks
        }
    }
}

/// A geo shape with a label whose id, without its `shape:` prefix, is `id`.
pub open spec fn is_labeled_geo(v: Json, id: Seq<char>) -> bool {
    &&& is_shape_of(v, "geo"@)
    &&& get_str(v, "id"@) matches Some(g) && strip_shape(g) == id
    &&& get2_str(v, "props"@, "text"@) matches Some(t) && t.len() > 0
}

/// The label of the last geo shape with this id and a label.
pub open spec fn last_label(vs: Seq<Json>, id: Seq<char>) -> Option<Seq<char>>
    decreases vs.len(),
{
    if vs.len() == 0 {
        None
    } else if is_labeled_geo(vs.last(), id) {
        get2_str(vs.last(), "props"@, "text"@)
    } else {
        last_label(vs.drop_last(), id)
    }
}

pub open spec fn label_or_id(vs: Seq<Json>, x: Seq<char>) -> Seq<char> {
    or_default(last_label(vs, x), x)
}

/// The connection of each arrow bound at both ends, for the arrows `ks`.
pub open spec fn conns(vs: Seq<Json>, ks: Seq<Seq<char>>) -> Seq<Seq<char>>
    decreases ks.len(),
{
    if ks.len() == 0 {
        seq![]
    } else {
        let k = ks.last();
        conns(vs, ks.drop_last()) + match (
            last_target(vs, k, "start"@),
            last_target(vs, k, "end"@),
        ) {
            (Some(s), Some(e)) => seq!["- "@ + label_or_id(vs, s) + " -> "@ + label_or_id(vs, e)],
            _ => seq![],
        }
    }
}

pub open spec fn lines_text(cs: Seq<Seq<char>>) -> Seq<char>
    decreases cs.len(),
{
    if cs.len() == 0 {
        seq![]
    } else {
        lines_text(cs.drop_last()) + cs.last() + "\n"@
    }
}

/// The graph section: the sorted connections, when there are any.
pub open spec fn graph_text(vs: Seq<Json>) -> Seq<char> {
    let cs = conns(vs, arrow_keys(vs)).sort_by(str_leq());
    if cs.len() > 0 {
        "### Graph ("@ + nat_dec(cs.len()) + " connections)\n"@ + lines_text(cs) + "\n"@
    } else {
        seq![]
    }
}

// ---------------------------------------------------------------------------
// The whole summary
// ---------------------------------------------------------------------------

/// The counts of the shapes and of the bindings.
pub open spec fn counts_text(vs: Seq<Json>) -> Seq<char> {
    let g = count_shapes(vs, "geo"@);
    let a = count_shapes(vs, "arrow"@);
    let t = count_shapes(vs, "text"@);
    let l = count_shapes(vs, "line"@);
    "**Shapes:** "@ + nat_dec(g + a + t + l) + " ("@ + nat_dec(g) + " geo, "@ + nat_dec(a)
        + " arrows, "@ + nat_dec(t) + " text, "@ + nat_dec(l) + " lines)\n"@ + "**Bindings:** "@
        + nat_dec(count_bindings(vs)) + "\n\n"@
}

/// The table of the labeled geo shapes, when there are geo shapes.
pub open spec fn nodes_text(vs: Seq<Json>, nums: Seq<(String, String)>) -> Seq<char> {
    let g = count_shapes(vs, "geo"@);
    if g > 0 {
        "### Nodes ("@ + nat_dec(g) + " geo shapes)\n"@ + "| Label | Geo | Color | Position |\n"@
            + "|-------|-----|-------|----------|\n"@ + geo_rows(vs, nums) + "\n"@
    } else {
        seq![]
    }
}

/// The text shapes, when there are any.
pub open spec fn labels_text(vs: Seq<Json>, nums: Seq<(String, String)>) -> Seq<char> {
    let t = count_shapes(vs, "text"@);
    if t > 0 {
        "### Text Labels ("@ + nat_dec(t) + ")\n"@ + text_lines(vs, nums) + "\n"@
    } else {
        seq![]
    }
}

/// The summary of a board's records.
pub open spec fn board_body(vs: Seq<Json>, nums: Seq<(String, String)>) -> Seq<char> {
    counts_text(vs) + nodes_text(vs, nums) + labels_text(vs, nums) + (if count_bindings(vs) > 0
        && count_shapes(vs, "arrow"@) > 0 {
        graph_text(vs)
    } else {
        seq![]
    })
}

/// The values of a board document's records, when its content is a board.
pub open spec fn board_vals(d: Document) -> Option<Seq<Json>> {
    match d.content {
        Some(c) => if board_shape_ok(c@) {
            Some(board_json_records(c@).map_values(|r: (Seq<char>, Json)| r.1))
        } else {
            None
        },
        None => None,
    }
}

/// The markdown summary of a board document.
pub open spec fn board_text(d: Document, hidden_tag: Seq<char>, nums: Seq<(String, String)>) -> Seq<
    char,
> {
    "## Board: "@ + d.name@ + hidden_tag + "\n\n"@ + match board_vals(d) {
        Some(vs) => board_body(vs, nums),
        None => "(no board content)\n"@,
    }
}

// ---------------------------------------------------------------------------
// Executable summary
// ---------------------------------------------------------------------------

pub open spec fn rec_vals(rs: Seq<BoardRecord>) -> Seq<Json> {
    Seq::new(rs.len(), |i: int| rs[i].val@)
}

pub open spec fn opt_str_view(o: Option<String>) -> Option<Seq<char>> {
    match o {
        Some(s) => Some(s@),
        None => None,
    }
}

fn get2<'a>(v: &'a JsonValue, k1: &str, k2: &str) -> (r: Option<&'a String>)
    ensures
        r matches Some(s) ==> get2_str(v@, k1@, k2@) == Some(s@),
        r is None ==> get2_str(v@, k1@, k2@) is None,
{
    match v.get(k1) {
        Some(p) => p.get_str(k2),
        None => None,
    }
}

fn str_or(o: Option<&String>, d: &str) -> (r: String)
    ensures
        r@ == or_default(
            match o {
                Some(s) => Some(s@),
                None => None,
            },
            d@,
        ),
{
    match o {
        Some(s) => s.clone(),
        None => copy_str(d),
    }
}

fn shape_of(v: &JsonValue, t: &str) -> (b: bool)
    ensures
        b == is_shape_of(v@, t@),
{
    match (v.get_str("typeName"), v.get_str("type")) {
        (Some(a), Some(b)) => str_eq(a.as_str(), "shape") && str_eq(b.as_str(), t),
        (Some(a), None) => false,
        _ => false,
    }
}

fn binding(v: &JsonValue) -> (b: bool)
    ensures
        b == is_binding(v@),
{
    match v.get_str("typeName") {
        Some(a) => str_eq(a.as_str(), "binding"),
        None => false,
    }
}

fn strip_shape_exec(s: String) -> (r: String)
    ensures
        r@ == strip_shape(s@),
{
    let cs = crate::text::chars_of(s.as_str());
    let p = crate::text::chars_of("shape:");
    proof {
        reveal_strlit("shape:");
    }
    if crate::text::starts_with_chars(&cs, &p) {
        crate::text::string_of_range(&cs, 6, cs.len())
    } else {
        s
    }
}

proof fn lemma_take_step(vs: Seq<Json>, i: int)
    requires
        0 <= i < vs.len(),
    ensures
        vs.take(i + 1).drop_last() == vs.take(i),
        vs.take(i + 1).last() == vs[i],
        vs.take(i + 1).len() == i + 1,
{
    assert(vs.take(i + 1).drop_last() =~= vs.take(i));
}

/// The counts of geo, arrow, text and line shapes, and of bindings.
fn count_records(recs: &Vec<BoardRecord>) -> (r: (usize, usize, usize, usize, usize))
    ensures
        ({
            let vs = rec_vals(recs@);
            &&& r.0 == count_shapes(vs, "geo"@)
            &&& r.1 == count_shapes(vs, "arrow"@)
            &&& r.2 == count_shapes(vs, "text"@)
            &&& r.3 == count_shapes(vs, "line"@)
            &&& r.4 == count_bindings(vs)
            &&& r.0 + r.1 + r.2 + r.3 <= recs.len()
        }),
{
    let ghost vs = rec_vals(recs@);
    let mut g: usize = 0;
    let mut a: usize = 0;
    let mut t: usize = 0;
    let mut l: usize = 0;
    let mut b: usize = 0;
    let mut i: usize = 0;
    while i < recs.len()
        invariant
            i <= recs.len(),
            vs == rec_vals(recs@),
            g == count_shapes(vs.take(i as int), "geo"@),
            a == count_shapes(vs.take(i as int), "arrow"@),
            t == count_shapes(vs.take(i as int), "text"@),
            l == count_shapes(vs.take(i as int), "line"@),
            b == count_bindings(vs.take(i as int)),
            g + a + t + l <= i,
            b <= i,
        decreases recs.len() - i,
    {
        proof {
            lemma_take_step(vs, i as int);
            reveal_strlit("geo");
            reveal_strlit("arrow");
            reveal_strlit("text");
            reveal_strlit("line");
            assert("geo"@.len() == 3 && "arrow"@.len() == 5 && "text"@.len() == 4);
            assert("line"@.len() == 4 && "text"@[0] != "line"@[0]);
        }
        let v = &recs[i].val;
        if shape_of(v, "geo") {
            g = g + 1;
        }
        if shape_of(v, "arrow") {
            a = a + 1;
        }
        if shape_of(v, "text") {
            t = t + 1;
        }
        if shape_of(v, "line") {
            l = l + 1;
        }
        if binding(v) {
            b = b + 1;
        }
        proof {
            reveal_strlit("geo");
            reveal_strlit("arrow");
            reveal_strlit("text");
            reveal_strlit("line");
        }
        i = i + 1;
    }
    assert(vs.take(recs.len() as int) =~= vs);
    (g, a, t, l, b)
}

fn geo_row_of(v: &JsonValue, xy: &str) -> (s: String)
    ensures
        s@ == geo_row(v@, xy@),
{
    let label = str_or(get2(v, "props", "text"), "");
    proof {
        reveal_strlit("");
    }
    let mut out = String::new();
    if !str_is_empty(label.as_str()) {
        out.push_str("| ");
        out.push_str(label.as_str());
        out.push_str(" | ");
        let geo = str_or(get2(v, "props", "geo"), "rectangle");
        out.push_str(geo.as_str());
        out.push_str(" | ");
        let color = str_or(get2(v, "props", "color"), "");
        out.push_str(color.as_str());
        out.push_str(" | (");
        out.push_str(xy);
        out.push_str(") |\n");
    }
    out
}

fn text_line_of(v: &JsonValue, xy: &str, scale: &str) -> (s: String)
    ensures
        s@ == text_line(v@, xy@, scale@),
{
    let mut out = String::new();
    out.push_str("- ");
    let text = str_or(get2(v, "props", "text"), "(empty)");
    out.push_str(text.as_str());
    out.push_str(" (scale ");
    out.push_str(scale);
    out.push_str(", at ");
    out.push_str(xy);
    out.push_str(")\n");
    out
}

fn geo_rows_of(recs: &Vec<BoardRecord>, nums: &Vec<(String, String)>) -> (s: String)
    ensures
        s@ == geo_rows(rec_vals(recs@), nums@),
{
    let ghost vs = rec_vals(recs@);
    let mut out = String::new();
    let mut i: usize = 0;
    while i < recs.len()
        invariant
            i <= recs.len(),
            vs == rec_vals(recs@),
            out@ == geo_rows(vs.take(i as int), nums@),
        decreases recs.len() - i,
    {
        proof {
            lemma_take_step(vs, i as int);
            reveal_strlit("geo");
            reveal_strlit("");
        }
        if shape_of(&recs[i].val, "geo") {
            let row = if i < nums.len() {
                geo_row_of(&recs[i].val, nums[i].0.as_str())
            } else {
                geo_row_of(&recs[i].val, "")
            };
            out.push_str(row.as_str());
        }
        i = i + 1;
    }
    assert(vs.take(recs.len() as int) =~= vs);
    out
}

fn text_lines_of(recs: &Vec<BoardRecord>, nums: &Vec<(String, String)>) -> (s: String)
    ensures
        s@ == text_lines(rec_vals(recs@), nums@),
{
    let ghost vs = rec_vals(recs@);
    let mut out = String::new();
    let mut i: usize = 0;
    while i < recs.len()
        invariant
            i <= recs.len(),
            vs == rec_vals(recs@),
            out@ == text_lines(vs.take(i as int), nums@),
        decreases recs.len() - i,
    {
        proof {
            lemma_take_step(vs, i as int);
            reveal_strlit("text");
            reveal_strlit("");
        }
        if shape_of(&recs[i].val, "text") {
            let line = if i < nums.len() {
                text_line_of(&recs[i].val, nums[i].0.as_str(), nums[i].1.as_str())
            } else {
                text_line_of(&recs[i].val, "", "")
            };
            out.push_str(line.as_str());
        }
        i = i + 1;
    }
    assert(vs.take(recs.len() as int) =~= vs);
    out
}

proof fn lemma_arrow_keys_distinct(vs: Seq<Json>)
    ensures
        forall|a: int, b: int|
            0 <= a < b < arrow_keys(vs).len() ==> #[trigger] arrow_keys(vs)[a] != #[trigger] arrow_keys(
                vs,
            )[b],
    decreases vs.len(),
{
    if vs.len() > 0 {
        lemma_arrow_keys_distinct(vs.drop_last());
        let ks = arrow_keys(vs.drop_last());
        let v = vs.last();
        if is_binding(v) && !ks.contains(arrow_key(v)) {
            assert forall|a: int| 0 <= a < ks.len() implies ks[a] != arrow_key(v) by {
                if ks[a] == arrow_key(v) {
                    assert(ks.contains(arrow_key(v)));
                }
            }
        }
    }
}

proof fn lemma_unkeyed_no_target(vs: Seq<Json>, a: Seq<char>, term: Seq<char>)
    requires
        !arrow_keys(vs).contains(a),
    ensures
        last_target(vs, a, term) is None,
    decreases vs.len(),
{
    if vs.len() > 0 {
        let ks = arrow_keys(vs.drop_last());
        let v = vs.last();
        if is_binding(v) && !ks.contains(arrow_key(v)) {
            assert(arrow_keys(vs)[ks.len() as int] == arrow_key(v));
            assert forall|x: Seq<char>| ks.contains(x) implies arrow_keys(vs).contains(x) by {
                let j = choose|j: int| 0 <= j < ks.len() && ks[j] == x;
                assert(arrow_keys(vs)[j] == x);
            }
        }
        lemma_unkeyed_no_target(vs.drop_last(), a, term);
    }
}

/// Index of `k` in `keys`, or `keys.len()`.
fn key_pos(keys: &Vec<String>, k: &str) -> (p: usize)
    ensures
        p <= keys.len(),
        p < keys.len() ==> keys@[p as int]@ == k@,
        p == keys.len() ==> !str_views(keys@).contains(k@),
{
    let mut p: usize = 0;
    while p < keys.len()
        invariant
            p <= keys.len(),
            forall|j: int| 0 <= j < p ==> keys@[j]@ != k@,
        decreases keys.len() - p,
    {
        if str_eq(keys[p].as_str(), k) {
            return p;
        }
        p = p + 1;
    }
    proof {
        if str_views(keys@).contains(k@) {
            let j = choose|j: int| 0 <= j < keys.len() && str_views(keys@)[j] == k@;
            assert(keys@[j]@ == k@);
        }
    }
    p
}

/// For each arrow (in order of first use) the targets of its last start and
/// end bindings.
fn arrow_endpoints(recs: &Vec<BoardRecord>) -> (r: (Vec<String>, Vec<Option<String>>, Vec<Option<String>>))
    ensures
        ({
            let vs = rec_vals(recs@);
            &&& str_views(r.0@) == arrow_keys(vs)
            &&& r.1.len() == r.0.len()
            &&& r.2.len() == r.0.len()
            &&& forall|j: int|
                0 <= j < r.0.len() ==> opt_str_view(#[trigger] r.1@[j]) == last_target(
                    vs,
                    r.0@[j]@,
                    "start"@,
                )
            &&& forall|j: int|
                0 <= j < r.0.len() ==> opt_str_view(#[trigger] r.2@[j]) == last_target(
                    vs,
                    r.0@[j]@,
                    "end"@,
                )
        }),
{
    let ghost vs = rec_vals(recs@);
    let mut keys: Vec<String> = Vec::new();
    let mut starts: Vec<Option<String>> = Vec::new();
    let mut ends: Vec<Option<String>> = Vec::new();
    let mut i: usize = 0;
    assert(str_views(keys@) =~= arrow_keys(vs.take(0)));
    while i < recs.len()
        invariant
            i <= recs.len(),
            vs == rec_vals(recs@),
            str_views(keys@) == arrow_keys(vs.take(i as int)),
            starts.len() == keys.len(),
            ends.len() == keys.len(),
            forall|j: int|
                0 <= j < keys.len() ==> opt_str_view(#[trigger] starts@[j]) == last_target(
                    vs.take(i as int),
                    keys@[j]@,
                    "start"@,
                ),
            forall|j: int|
                0 <= j < keys.len() ==> opt_str_view(#[trigger] ends@[j]) == last_target(
                    vs.take(i as int),
                    keys@[j]@,
                    "end"@,
                ),
        decreases recs.len() - i,
    {
        proof {
            lemma_take_step(vs, i as int);
            lemma_arrow_keys_distinct(vs.take(i as int));
        }
        let ghost pre = vs.take(i as int);
        let ghost post = vs.take(i + 1);
        let v = &recs[i].val;
        if binding(v) {
            let k = strip_shape_exec(str_or(v.get_str("fromId"), ""));
            let target = strip_shape_exec(str_or(v.get_str("toId"), ""));
            let term = str_or(get2(v, "props", "terminal"), "");
            proof {
                reveal_strlit("");
                assert(vs[i as int] == v@);
                assert(""@ =~= Seq::<char>::empty());
            }
            assert(k@ == arrow_key(vs[i as int]));
            assert(target@ == target_of(vs[i as int]));
            assert(term@ == terminal_of(vs[i as int]));
            let mut p = key_pos(&keys, k.as_str());
            if p == keys.len() {
                proof {
                    lemma_unkeyed_no_target(pre, k@, "start"@);
                    lemma_unkeyed_no_target(pre, k@, "end"@);
                }
                let ghost kv = k@;
                keys.push(k);
                starts.push(None);
                ends.push(None);
                assert(str_views(keys@) =~= arrow_keys(pre).push(kv));
            } else {
                assert(arrow_keys(pre).contains(k@)) by {
                    assert(str_views(keys@)[p as int] == k@);
                }
            }
            assert(str_views(keys@) == arrow_keys(post));
            assert(keys@[p as int]@ == arrow_key(vs[i as int]));
            if str_eq(term.as_str(), "start") {
                starts.set(p, Some(target));
            } else if str_eq(term.as_str(), "end") {
                ends.set(p, Some(target));
            }
            proof {
                lemma_arrow_keys_distinct(post);
                reveal_strlit("start");
                reveal_strlit("end");
                assert("start"@.len() == 5 && "end"@.len() == 3);
                assert forall|j: int| 0 <= j < keys.len() implies opt_str_view(
                    #[trigger] starts@[j],
                ) == last_target(post, keys@[j]@, "start"@) by {
                    if j != p {
                        assert(str_views(keys@)[j] != str_views(keys@)[p as int]);
                    }
                }
                assert forall|j: int| 0 <= j < keys.len() implies opt_str_view(
                    #[trigger] ends@[j],
                ) == last_target(post, keys@[j]@, "end"@) by {
                    if j != p {
                        assert(str_views(keys@)[j] != str_views(keys@)[p as int]);
                    }
                }
            }
        }
        i = i + 1;
    }
    assert(vs.take(recs.len() as int) =~= vs);
    (keys, starts, ends)
}

fn labeled_geo(v: &JsonValue, id: &str) -> (b: bool)
    ensures
        b == is_labeled_geo(v@, id@),
{
    proof {
        reveal_strlit("geo");
    }
    if !shape_of(v, "geo") {
        return false;
    }
    let id_ok = match v.get_str("id") {
        Some(x) => str_eq(strip_shape_exec(copy_str(x.as_str())).as_str(), id),
        None => false,
    };
    if !id_ok {
        return false;
    }
    match get2(v, "props", "text") {
        Some(t) => !str_is_empty(t.as_str()),
        None => false,
    }
}

/// The label of the shape `x`, or `x` itself.
fn label_of(recs: &Vec<BoardRecord>, x: &str) -> (r: String)
    ensures
        r@ == label_or_id(rec_vals(recs@), x@),
{
    let ghost vs = rec_vals(recs@);
    let mut i: usize = recs.len();
    assert(vs.take(recs.len() as int) =~= vs);
    while i > 0
        invariant
            i <= recs.len(),
            vs == rec_vals(recs@),
            last_label(vs, x@) == last_label(vs.take(i as int), x@),
        decreases i,
    {
        proof {
            lemma_take_step(vs, i - 1);
        }
        let v = &recs[i - 1].val;
        if labeled_geo(v, x) {
            let t = get2(v, "props", "text");
            return str_or(t, x);
        }
        i = i - 1;
    }
    copy_str(x)
}

/// The sorted connections of the arrows bound at both ends.
fn connections(recs: &Vec<BoardRecord>) -> (r: Vec<String>)
    ensures
        str_views(r@) == conns(rec_vals(recs@), arrow_keys(rec_vals(recs@))).sort_by(str_leq()),
{
    let ghost vs = rec_vals(recs@);
    let (keys, starts, ends) = arrow_endpoints(recs);
    let ghost ks = arrow_keys(vs);
    let mut cs: Vec<String> = Vec::new();
    let mut j: usize = 0;
    assert(str_views(cs@) =~= conns(vs, ks.take(0)));
    while j < keys.len()
        invariant
            j <= keys.len(),
            vs == rec_vals(recs@),
            ks == arrow_keys(vs),
            str_views(keys@) == ks,
            starts.len() == keys.len(),
            ends.len() == keys.len(),
            forall|q: int|
                0 <= q < keys.len() ==> opt_str_view(#[trigger] starts@[q]) == last_target(
                    vs,
                    keys@[q]@,
                    "start"@,
                ),
            forall|q: int|
                0 <= q < keys.len() ==> opt_str_view(#[trigger] ends@[q]) == last_target(
                    vs,
                    keys@[q]@,
                    "end"@,
                ),
            str_views(cs@) == conns(vs, ks.take(j as int)),
        decreases keys.len() - j,
    {
        assert(ks.take(j + 1).drop_last() =~= ks.take(j as int));
        assert(ks.take(j + 1).last() == keys@[j as int]@);
        let ghost s0 = str_views(cs@);
        let ghost st = starts@[j as int];
        let ghost en = ends@[j as int];
        assert(opt_str_view(st) == last_target(vs, ks[j as int], "start"@));
        assert(opt_str_view(en) == last_target(vs, ks[j as int], "end"@));
        match (&starts[j], &ends[j]) {
            (Some(s), Some(e)) => {
                let mut c = String::new();
                c.push_str("- ");
                let ls = label_of(recs, s.as_str());
                c.push_str(ls.as_str());
                c.push_str(" -> ");
                let le = label_of(recs, e.as_str());
                c.push_str(le.as_str());
                let ghost cv = c@;
                cs.push(c);
                assert(str_views(cs@) =~= s0 + seq![cv]);
            },
            _ => {
                assert(str_views(cs@) =~= s0 + Seq::<Seq<char>>::empty());
            },
        }
        j = j + 1;
    }
    assert(ks.take(keys.len() as int) =~= ks);
    sort_strings(cs)
}

fn lines_of_strings(cs: &Vec<String>) -> (r: String)
    ensures
        r@ == lines_text(str_views(cs@)),
{
    let ghost sv = str_views(cs@);
    let mut out = String::new();
    let mut i: usize = 0;
    while i < cs.len()
        invariant
            i <= cs.len(),
            sv == str_views(cs@),
            out@ == lines_text(sv.take(i as int)),
        decreases cs.len() - i,
    {
        assert(sv.take(i + 1).drop_last() =~= sv.take(i as int));
        out.push_str(cs[i].as_str());
        out.push_str("\n");
        i = i + 1;
    }
    assert(sv.take(cs.len() as int) =~= sv);
    out
}

fn graph_of(recs: &Vec<BoardRecord>) -> (r: String)
    ensures
        r@ == graph_text(rec_vals(recs@)),
{
    let cs = connections(recs);
    let mut out = String::new();
    if cs.len() > 0 {
        out.push_str("### Graph (");
        let n = usize_to_string(cs.len());
        out.push_str(n.as_str());
        out.push_str(" connections)\n");
        let ls = lines_of_strings(&cs);
        out.push_str(ls.as_str());
        out.push_str("\n");
    }
    out
}

fn counts_text_of(recs: &Vec<BoardRecord>) -> (r: (String, usize, usize, usize))
    ensures
        r.0@ == counts_text(rec_vals(recs@)),
        r.1 == count_shapes(rec_vals(recs@), "geo"@),
        r.2 == count_shapes(rec_vals(recs@), "text"@),
        r.3 == (if count_bindings(rec_vals(recs@)) > 0 && count_shapes(rec_vals(recs@), "arrow"@)
            > 0 {
            1nat
        } else {
            0nat
        }),
{
    let (g, a, t, l, b) = count_records(recs);
    let mut out = String::new();
    out.push_str("**Shapes:** ");
    out.push_str(usize_to_string(g + a + t + l).as_str());
    out.push_str(" (");
    out.push_str(usize_to_string(g).as_str());
    out.push_str(" geo, ");
    out.push_str(usize_to_string(a).as_str());
    out.push_str(" arrows, ");
    out.push_str(usize_to_string(t).as_str());
    out.push_str(" text, ");
    out.push_str(usize_to_string(l).as_str());
    out.push_str(" lines)\n");
    out.push_str("**Bindings:** ");
    out.push_str(usize_to_string(b).as_str());
    out.push_str("\n\n");
    let graph: usize = if b > 0 && a > 0 {
        1
    } else {
        0
    };
    (out, g, t, graph)
}

fn nodes_text_of(recs: &Vec<BoardRecord>, nums: &Vec<(String, String)>, g: usize) -> (r: String)
    requires
        g == count_shapes(rec_vals(recs@), "geo"@),
    ensures
        r@ == nodes_text(rec_vals(recs@), nums@),
{
    let mut out = String::new();
    if g > 0 {
        out.push_str("### Nodes (");
        out.push_str(usize_to_string(g).as_str());
        out.push_str(" geo shapes)\n");
        out.push_str("| Label | Geo | Color | Position |\n");
        out.push_str("|-------|-----|-------|----------|\n");
        out.push_str(geo_rows_of(recs, nums).as_str());
        out.push_str("\n");
    }
    out
}

fn labels_text_of(recs: &Vec<BoardRecord>, nums: &Vec<(String, String)>, t: usize) -> (r: String)
    requires
        t == count_shapes(rec_vals(recs@), "text"@),
    ensures
        r@ == labels_text(rec_vals(recs@), nums@),
{
    let mut out = String::new();
    if t > 0 {
        out.push_str("### Text Labels (");
        out.push_str(usize_to_string(t).as_str());
        out.push_str(")\n");
        out.push_str(text_lines_of(recs, nums).as_str());
        out.push_str("\n");
    }
    out
}

fn board_body_of(recs: &Vec<BoardRecord>, nums: &Vec<(String, String)>) -> (r: String)
    ensures
        r@ == board_body(rec_vals(recs@), nums@),
{
    let (mut out, g, t, graph) = counts_text_of(recs);
    out.push_str(nodes_text_of(recs, nums, g).as_str());
    out.push_str(labels_text_of(recs, nums, t).as_str());
    if graph == 1 {
        out.push_str(graph_of(recs).as_str());
    }
    out
}

/// The markdown summary of a board document: the counts of its shapes and
/// bindings, a table of its labeled nodes, its text labels, and the graph
/// that its arrows draw. `nums[i]` holds the position and the scale of
/// record `i`, formatted by the caller (`"{x:.0}, {y:.0}"` and `"{scale:.1}"`,
/// with 0 and 1 where a number is missing).
pub fn format_board_document(doc: &Document, hidden_tag: &str, nums: &Vec<(String, String)>) -> (r:
    String)
    ensures
        r@ == board_text(*doc, hidden_tag@, nums@),
{
    let mut out = String::new();
    out.push_str("## Board: ");
    out.push_str(doc.name.as_str());
    out.push_str(hidden_tag);
    out.push_str("\n\n");
    let board = match &doc.content {
        Some(c) => match board_from_json(c) {
            Ok(b) => Some(b),
            Err(_) => None,
        },
        None => None,
    };
    match board {
        Some(b) => {
            proof {
                let c = doc.content->Some_0;
                assert(board_json_records(c@).map_values(|r: (Seq<char>, Json)| r.1) =~= rec_vals(
                    b.shapes_v2@,
                )) by {
                    assert(records_model(b.shapes_v2@) == board_json_records(c@));
                }
            }
            out.push_str(board_body_of(&b.shapes_v2, nums).as_str());
        },
        None => {
            out.push_str("(no board content)\n");
        },
    }
    out
}

} // verus!
