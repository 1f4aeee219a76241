//! Generation of a board (whiteboard) from a graph of typed nodes and edges.

use vstd::prelude::*;
use crate::json::{
    Json, JsonValue, jnum, jstr, jstring, new_entries, object, push_entry, ekeys, evals,
};
use crate::lk::schema::{BoardContent, BoardRecord};
use crate::lk::LkError;
use crate::lk::builder::{first_missing, record_error, records_error};
use crate::text::{byte_len, cat, cat3, int_dec, nat_dec, str_eq, u128_to_string, i128_to_string,
    usize_to_string, utf8_len, chars_of, string_of_range, utf8_len_exec};

verus! {

broadcast use vstd::string::group_string_axioms;

/// A node of a graph: a board shape.
#[derive(Debug, Clone)]
pub struct GraphNode {
    /// Unique node identifier (referenced by edges).
    pub id: String,
    /// Display label for the node.
    pub label: String,
    /// Node category: "location", "person", "organization", "event" or "activity".
    pub node_type: String,
}

/// An edge of a graph: an arrow between two shapes.
#[derive(Debug, Clone)]
pub struct GraphEdge {
    pub from: String,
    pub to: String,
    pub label: Option<String>,
}

// ---------------------------------------------------------------------------
// Node types
// ---------------------------------------------------------------------------

/// The node types, in the order of the board's columns.
pub open spec fn column_order() -> Seq<Seq<char>> {
    seq!["location"@, "person"@, "organization"@, "event"@, "activity"@]
}

pub open spec fn valid_node_type(t: Seq<char>) -> bool {
    column_order().contains(t)
}

/// The tldraw geometry of a node type.
pub open spec fn geo_spec(t: Seq<char>) -> Seq<char> {
    if t == "location"@ {
        "pentagon"@
    } else if t == "event"@ {
        "diamond"@
    } else {
        "rectangle"@
    }
}

/// The color of a node type.
pub open spec fn color_spec(t: Seq<char>) -> Seq<char> {
    if t == "location"@ {
        "blue"@
    } else if t == "person"@ {
        "green"@
    } else if t == "organization"@ {
        "violet"@
    } else if t == "event"@ {
        "orange"@
    } else if t == "activity"@ {
        "grey"@
    } else {
        "black"@
    }
}

pub fn geo_for_type(node_type: &str) -> (r: &'static str)
    ensures
        r@ == geo_spec(node_type@),
{
    if str_eq(node_type, "location") {
        "pentagon"
    } else if str_eq(node_type, "event") {
        "diamond"
    } else {
        "rectangle"
    }
}

pub fn color_for_type(node_type: &str) -> (r: &'static str)
    ensures
        r@ == color_spec(node_type@),
{
    if str_eq(node_type, "location") {
        "blue"
    } else if str_eq(node_type, "person") {
        "green"
    } else if str_eq(node_type, "organization") {
        "violet"
    } else if str_eq(node_type, "event") {
        "orange"
    } else if str_eq(node_type, "activity") {
        "grey"
    } else {
        "black"
    }
}

fn is_valid_node_type(t: &str) -> (r: bool)
    ensures
        r == valid_node_type(t@),
{
    let r = str_eq(t, "location") || str_eq(t, "person") || str_eq(t, "organization") || str_eq(
        t,
        "event",
    ) || str_eq(t, "activity");
    assert(column_order()[0] == "location"@);
    assert(column_order()[1] == "person"@);
    assert(column_order()[2] == "organization"@);
    assert(column_order()[3] == "event"@);
    assert(column_order()[4] == "activity"@);
    r
}

// ---------------------------------------------------------------------------
// Validation
// ---------------------------------------------------------------------------

/// Some node among the first `upto` has identifier `id`.
pub open spec fn has_node_id(nodes: Seq<GraphNode>, id: Seq<char>, upto: int) -> bool {
    exists|j: int| 0 <= j < upto && j < nodes.len() && #[trigger] nodes[j].id@ == id
}

/// The error raised at node `i`, given the nodes before it.
pub open spec fn node_error(nodes: Seq<GraphNode>, i: int) -> Option<Seq<char>> {
    if has_node_id(nodes, nodes[i].id@, i) {
        Some("Duplicate node ID: "@ + nodes[i].id@)
    } else if !valid_node_type(nodes[i].node_type@) {
        Some(
            "Unknown node_type: "@ + nodes[i].node_type@
                + ". Must be one of: location, person, organization, event, activity"@,
        )
    } else {
        None
    }
}

/// The first node error at or after node `i`.
pub open spec fn nodes_error(nodes: Seq<GraphNode>, i: int) -> Option<Seq<char>>
    decreases nodes.len() - i,
{
    if i < 0 || i >= nodes.len() {
        None
    } else {
        match node_error(nodes, i) {
            Some(m) => Some(m),
            None => nodes_error(nodes, i + 1),
        }
    }
}

/// The error raised at an edge whose end is not a node.
pub open spec fn edge_error(nodes: Seq<GraphNode>, e: GraphEdge) -> Option<Seq<char>> {
    if !has_node_id(nodes, e.from@, nodes.len() as int) {
        Some("Edge references unknown node: "@ + e.from@)
    } else if !has_node_id(nodes, e.to@, nodes.len() as int) {
        Some("Edge references unknown node: "@ + e.to@)
    } else {
        None
    }
}

/// The first edge error at or after edge `k`.
pub open spec fn edges_error(nodes: Seq<GraphNode>, edges: Seq<GraphEdge>, k: int) -> Option<
    Seq<char>,
>
    decreases edges.len() - k,
{
    if k < 0 || k >= edges.len() {
        None
    } else {
        match edge_error(nodes, edges[k]) {
            Some(m) => Some(m),
            None => edges_error(nodes, edges, k + 1),
        }
    }
}

/// The message of the first problem of a graph, if it has one: no node, a
/// duplicate identifier, an unknown node type, an edge to an unknown node.
pub open spec fn graph_error(nodes: Seq<GraphNode>, edges: Seq<GraphEdge>) -> Option<Seq<char>> {
    if nodes.len() == 0 {
        Some("At least one node is required"@)
    } else {
        match nodes_error(nodes, 0) {
            Some(m) => Some(m),
            None => edges_error(nodes, edges, 0),
        }
    }
}

fn has_id(nodes: &[GraphNode], id: &str, upto: usize) -> (r: bool)
    requires
        upto <= nodes.len(),
    ensures
        r == has_node_id(nodes@, id@, upto as int),
{
    let mut j: usize = 0;
    while j < upto
        invariant
            upto <= nodes.len(),
            j <= upto,
            forall|k: int| 0 <= k < j ==> nodes@[k].id@ != id@,
        decreases upto - j,
    {
        if str_eq(nodes[j].id.as_str(), id) {
            return true;
        }
        j = j + 1;
    }
    false
}

/// Checks a graph before it is laid out on a board.
pub fn validate_graph(nodes: &[GraphNode], edges: &[GraphEdge]) -> (r: Result<(), LkError>)
    ensures
        r is Ok <==> graph_error(nodes@, edges@) is None,
        r matches Err(e) ==> e matches LkError::InvalidInput(m) && graph_error(nodes@, edges@)
            == Some(m@),
{
    if nodes.len() == 0 {
        return Err(LkError::InvalidInput(copy("At least one node is required")));
    }
    let mut i: usize = 0;
    while i < nodes.len()
        invariant
            i <= nodes.len(),
            nodes_error(nodes@, 0) == nodes_error(nodes@, i as int),
        decreases nodes.len() - i,
    {
        if has_id(nodes, nodes[i].id.as_str(), i) {
            let m = cat("Duplicate node ID: ", nodes[i].id.as_str());
            return Err(LkError::InvalidInput(m));
        }
        if !is_valid_node_type(nodes[i].node_type.as_str()) {
            let m = cat3(
                "Unknown node_type: ",
                nodes[i].node_type.as_str(),
                ". Must be one of: location, person, organization, event, activity",
            );
            return Err(LkError::InvalidInput(m));
        }
        i = i + 1;
    }
    let mut k: usize = 0;
    while k < edges.len()
        invariant
            k <= edges.len(),
            nodes_error(nodes@, 0) is None,
            nodes@.len() > 0,
            edges_error(nodes@, edges@, 0) == edges_error(nodes@, edges@, k as int),
        decreases edges.len() - k,
    {
        if !has_id(nodes, edges[k].from.as_str(), nodes.len()) {
            let m = cat("Edge references unknown node: ", edges[k].from.as_str());
            return Err(LkError::InvalidInput(m));
        }
        if !has_id(nodes, edges[k].to.as_str(), nodes.len()) {
            let m = cat("Edge references unknown node: ", edges[k].to.as_str());
            return Err(LkError::InvalidInput(m));
        }
        k = k + 1;
    }
    Ok(())
}

// ---------------------------------------------------------------------------
// Layout
// ---------------------------------------------------------------------------

/// A JSON number for a coordinate: the decimal text of a float with an
/// integral value (`400.0`).
pub open spec fn fnum(i: int) -> Json {
    Json::Number(int_dec(i) + ".0"@)
}

pub open spec fn jstr_m(s: Seq<char>) -> Json {
    Json::Str(s)
}

pub open spec fn jint(s: Seq<char>) -> Json {
    Json::Number(s)
}

pub open spec fn empty_obj() -> Json {
    Json::Object(seq![], seq![])
}

/// The nodes of type `t`, in order.
pub open spec fn col_nodes(nodes: Seq<GraphNode>, t: Seq<char>) -> Seq<GraphNode>
    decreases nodes.len(),
{
    if nodes.len() == 0 {
        seq![]
    } else {
        let rest = col_nodes(nodes.drop_last(), t);
        if nodes.last().node_type@ == t {
            rest.push(nodes.last())
        } else {
            rest
        }
    }
}

/// The node types among the first `k` of `column_order()` that some node has.
pub open spec fn present_cols(nodes: Seq<GraphNode>, k: int) -> Seq<Seq<char>>
    decreases k,
{
    if k <= 0 {
        seq![]
    } else {
        let rest = present_cols(nodes, k - 1);
        let t = column_order()[k - 1];
        if col_nodes(nodes, t).len() > 0 {
            rest.push(t)
        } else {
            rest
        }
    }
}

/// The board's columns: the node types that some node has, in column order.
pub open spec fn columns(nodes: Seq<GraphNode>) -> Seq<Seq<char>> {
    present_cols(nodes, 5)
}

pub open spec fn doc_record() -> (Seq<char>, Json) {
    (
        "document:document"@,
        Json::Object(
            Seq::empty().push("gridSize"@).push("name"@).push("meta"@).push("id"@).push("typeName"@),
            Seq::empty().push(jint("10"@)).push(jstr_m(""@)).push(empty_obj()).push(jstr_m("document:document"@)).push(jstr_m("document"@)),
        ),
    )
}

pub open spec fn page_record() -> (Seq<char>, Json) {
    (
        "page:page"@,
        Json::Object(
            Seq::empty().push("meta"@).push("id"@).push("name"@).push("index"@).push("typeName"@),
            Seq::empty().push(empty_obj()).push(jstr_m("page:page"@)).push(jstr_m("Page 1"@)).push(jstr_m("a1"@)).push(jstr_m("page"@)),
        ),
    )
}

/// The header of column `ci`, a text shape naming the node type.
pub open spec fn title_record(ci: int, t: Seq<char>) -> (Seq<char>, Json) {
    let key = "shape:title_"@ + t;
    (
        key,
        Json::Object(
            Seq::empty().push("id"@).push("type"@).push("typeName"@).push("x"@).push("y"@).push("rotation"@).push("isLocked"@).push("opacity"@).push("meta"@).push("parentId"@).push("index"@).push("props"@),
            Seq::empty().push(jstr_m(key)).push(jstr_m("text"@)).push(jstr_m("shape"@)).push(fnum(ci * 400)).push(fnum(-80)).push(jint("0"@)).push(Json::Bool(false)).push(jint("1"@)).push(empty_obj()).push(jstr_m("page:page"@)).push(jstr_m("a"@ + nat_dec(ci as nat))).push(Json::Object(
                    Seq::empty().push("color"@).push("size"@).push("w"@).push("text"@).push("font"@).push("textAlign"@).push("autoSize"@).push("scale"@),
                    Seq::empty().push(jstr_m(color_spec(t))).push(jstr_m("m"@)).push(fnum(200)).push(jstr_m(t)).push(jstr_m("draw"@)).push(jstr_m("start"@)).push(Json::Bool(true)).push(Json::Number("3.0"@)),
                )),
        ),
    )
}

/// The shape of node `n`, row `r` of column `ci`.
pub open spec fn node_record(ci: int, r: int, n: GraphNode) -> (Seq<char>, Json) {
    let key = "shape:"@ + n.id@;
    (
        key,
        Json::Object(
            Seq::empty().push("id"@).push("type"@).push("typeName"@).push("x"@).push("y"@).push("rotation"@).push("isLocked"@).push("opacity"@).push("meta"@).push("parentId"@).push("index"@).push("props"@),
            Seq::empty().push(jstr_m(key)).push(jstr_m("geo"@)).push(jstr_m("shape"@)).push(fnum(ci * 400)).push(fnum(r * 200)).push(jint("0"@)).push(Json::Bool(false)).push(jint("1"@)).push(empty_obj()).push(jstr_m("page:page"@)).push(jstr_m("b"@ + nat_dec(ci as nat) + "_"@ + nat_dec(r as nat))).push(Json::Object(
                    Seq::empty().push("geo"@).push("w"@).push("h"@).push("dash"@).push("size"@).push("color"@).push("fill"@).push("text"@).push("font"@).push("textAlign"@).push("verticalAlign"@).push("growY"@).push("url"@).push("scale"@),
                    Seq::empty().push(jstr_m(geo_spec(n.node_type@))).push(fnum(200)).push(fnum(100)).push(jstr_m("draw"@)).push(jstr_m("m"@)).push(jstr_m(color_spec(n.node_type@))).push(jstr_m("semi"@)).push(jstr_m(n.label@)).push(jstr_m("draw"@)).push(jstr_m("middle"@)).push(jstr_m("middle"@)).push(jint("0"@)).push(jstr_m(""@)).push(jint("1"@)),
                )),
        ),
    )
}

/// The records of column `ci` and of the columns after it.
pub open spec fn column_records(nodes: Seq<GraphNode>, cols: Seq<Seq<char>>, ci: int) -> Seq<
    (Seq<char>, Json),
>
    decreases cols.len() - ci,
{
    if ci < 0 || ci >= cols.len() {
        seq![]
    } else {
        let col = col_nodes(nodes, cols[ci]);
        seq![title_record(ci, cols[ci])] + Seq::new(col.len(), |r: int| node_record(ci, r, col[r]))
            + column_records(nodes, cols, ci + 1)
    }
}

/// Where the nodes of column `ci` and after it are placed: identifier and position.
pub open spec fn placements(nodes: Seq<GraphNode>, cols: Seq<Seq<char>>, ci: int) -> Seq<
    (Seq<char>, int, int),
>
    decreases cols.len() - ci,
{
    if ci < 0 || ci >= cols.len() {
        seq![]
    } else {
        let col = col_nodes(nodes, cols[ci]);
        Seq::new(col.len(), |r: int| (col[r].id@, ci * 400, r * 200)) + placements(
            nodes,
            cols,
            ci + 1,
        )
    }
}

/// The position of the last placement of `id`, or the origin.
pub open spec fn last_pos(p: Seq<(Seq<char>, int, int)>, id: Seq<char>) -> (int, int)
    decreases p.len(),
{
    if p.len() == 0 {
        (0, 0)
    } else if p.last().0 == id {
        (p.last().1, p.last().2)
    } else {
        last_pos(p.drop_last(), id)
    }
}

/// The longest prefix of `s` whose UTF-8 encoding takes at most `n` bytes.
pub open spec fn take_bytes(s: Seq<char>, n: int) -> Seq<char>
    decreases s.len(),
{
    if s.len() == 0 || utf8_len(s[0]) > n {
        seq![]
    } else {
        seq![s[0]] + take_bytes(s.drop_first(), n - utf8_len(s[0]))
    }
}

/// The text of an edge's arrow: its label cut to 40 bytes.
pub open spec fn edge_text(e: GraphEdge) -> Seq<char> {
    match e.label {
        Some(l) => take_bytes(l@, 40),
        None => ""@,
    }
}

/// An edge label can be cut at 40 bytes: it is short enough, or byte 40
/// ends a character.
pub open spec fn label_cuttable(e: GraphEdge) -> bool {
    match e.label {
        Some(l) => take_bytes(l@, 40) == l@ || byte_len(take_bytes(l@, 40)) == 40,
        None => true,
    }
}

pub open spec fn arrow_key(ei: int) -> Seq<char> {
    "shape:arrow_"@ + nat_dec(ei as nat)
}

/// The arrow of edge `ei`, from position `f` to position `t`.
pub open spec fn arrow_record(ei: int, e: GraphEdge, f: (int, int), t: (int, int)) -> (
    Seq<char>,
    Json,
) {
    let key = arrow_key(ei);
    (
        key,
        Json::Object(
            Seq::empty().push("id"@).push("type"@).push("typeName"@).push("x"@).push("y"@).push("rotation"@).push("isLocked"@).push("opacity"@).push("meta"@).push("parentId"@).push("index"@).push("props"@),
            Seq::empty().push(jstr_m(key)).push(jstr_m("arrow"@)).push(jstr_m("shape"@)).push(fnum(f.0 + 100)).push(fnum(f.1 + 50)).push(jint("0"@)).push(Json::Bool(false)).push(jint("1"@)).push(empty_obj()).push(jstr_m("page:page"@)).push(jstr_m("c"@ + nat_dec(ei as nat))).push(Json::Object(
                    Seq::empty().push("dash"@).push("size"@).push("fill"@).push("color"@).push("labelColor"@).push("bend"@).push("start"@).push("end"@).push("arrowheadStart"@).push("arrowheadEnd"@).push("text"@).push("labelPosition"@).push("font"@).push("scale"@),
                    Seq::empty().push(jstr_m("draw"@)).push(jstr_m("m"@)).push(jstr_m("none"@)).push(jstr_m("black"@)).push(jstr_m("black"@)).push(jint("0"@)).push(Json::Object(Seq::empty().push("x"@).push("y"@), Seq::empty().push(jint("0"@)).push(jint("0"@)))).push(Json::Object(Seq::empty().push("x"@).push("y"@), Seq::empty().push(fnum(t.0 - f.0)).push(fnum(t.1 - f.1)))).push(jstr_m("none"@)).push(jstr_m("arrow"@)).push(jstr_m(edge_text(e))).push(Json::Number("0.5"@)).push(jstr_m("draw"@)).push(jint("1"@)),
                )),
        ),
    )
}

/// The binding of end `terminal` ("start" or "end") of arrow `ei` to node `target`.
pub open spec fn binding_record(ei: int, terminal: Seq<char>, target: Seq<char>) -> (
    Seq<char>,
    Json,
) {
    let key = "binding:arrow_"@ + nat_dec(ei as nat) + "_"@ + terminal;
    (
        key,
        Json::Object(
            Seq::empty().push("id"@).push("type"@).push("typeName"@).push("fromId"@).push("toId"@).push("meta"@).push("props"@),
            Seq::empty().push(jstr_m(key)).push(jstr_m("arrow"@)).push(jstr_m("binding"@)).push(jstr_m(arrow_key(ei))).push(jstr_m("shape:"@ + target)).push(empty_obj()).push(Json::Object(
                    Seq::empty().push("isPrecise"@).push("isExact"@).push("normalizedAnchor"@).push("terminal"@),
                    Seq::empty().push(Json::Bool(false)).push(Json::Bool(false)).push(Json::Object(Seq::empty().push("x"@).push("y"@), Seq::empty().push(Json::Number("0.5"@)).push(Json::Number("0.5"@)))).push(jstr_m(terminal)),
                )),
        ),
    )
}

/// The records of edge `ei` and the edges after it.
pub open spec fn edge_records(edges: Seq<GraphEdge>, p: Seq<(Seq<char>, int, int)>, ei: int) -> Seq<
    (Seq<char>, Json),
>
    decreases edges.len() - ei,
{
    if ei < 0 || ei >= edges.len() {
        seq![]
    } else {
        let e = edges[ei];
        Seq::empty().push(arrow_record(ei, e, last_pos(p, e.from@), last_pos(p, e.to@))).push(binding_record(ei, "start"@, e.from@)).push(binding_record(ei, "end"@, e.to@)) + edge_records(edges, p, ei + 1)
    }
}

/// All records of the board laid out for a graph: the document and page,
/// one column per node type (a header, then its nodes top to bottom), and
/// an arrow with two bindings per edge.
pub open spec fn board_records(nodes: Seq<GraphNode>, edges: Seq<GraphEdge>) -> Seq<
    (Seq<char>, Json),
> {
    let cols = columns(nodes);
    Seq::empty().push(doc_record()).push(page_record()) + column_records(nodes, cols, 0) + edge_records(
        edges,
        placements(nodes, cols, 0),
        0,
    )
}

fn fnum_exec(i: i128) -> (r: JsonValue)
    ensures
        r@ == fnum(i as int),
{
    let d = i128_to_string(i);
    JsonValue::Number(cat(d.as_str(), ".0"))
}

fn empty_object() -> (r: JsonValue)
    ensures
        r@ == empty_obj(),
{
    object(new_entries())
}

fn make_doc_record() -> (r: BoardRecord)
    ensures
        (r.key@, r.val@) == doc_record(),
{
    let mut e = new_entries();
    push_entry(&mut e, "gridSize", jnum("10"));
    push_entry(&mut e, "name", jstr(""));
    push_entry(&mut e, "meta", empty_object());
    push_entry(&mut e, "id", jstr("document:document"));
    push_entry(&mut e, "typeName", jstr("document"));
    BoardRecord { key: copy("document:document"), val: object(e) }
}

fn make_page_record() -> (r: BoardRecord)
    ensures
        (r.key@, r.val@) == page_record(),
{
    let mut e = new_entries();
    push_entry(&mut e, "meta", empty_object());
    push_entry(&mut e, "id", jstr("page:page"));
    push_entry(&mut e, "name", jstr("Page 1"));
    push_entry(&mut e, "index", jstr("a1"));
    push_entry(&mut e, "typeName", jstr("page"));
    BoardRecord { key: copy("page:page"), val: object(e) }
}

fn make_title_record(ci: usize, t: &str) -> (r: BoardRecord)
    requires
        ci < 5,
    ensures
        (r.key@, r.val@) == title_record(ci as int, t@),
{
    let key = cat("shape:title_", t);
    let mut p = new_entries();
    push_entry(&mut p, "color", jstr(color_for_type(t)));
    push_entry(&mut p, "size", jstr("m"));
    push_entry(&mut p, "w", fnum_exec(200));
    push_entry(&mut p, "text", jstr(t));
    push_entry(&mut p, "font", jstr("draw"));
    push_entry(&mut p, "textAlign", jstr("start"));
    push_entry(&mut p, "autoSize", JsonValue::Bool(true));
    push_entry(&mut p, "scale", jnum("3.0"));
    let mut e = new_entries();
    push_entry(&mut e, "id", jstr(key.as_str()));
    push_entry(&mut e, "type", jstr("text"));
    push_entry(&mut e, "typeName", jstr("shape"));
    push_entry(&mut e, "x", fnum_exec(ci as i128 * 400));
    push_entry(&mut e, "y", fnum_exec(-80));
    push_entry(&mut e, "rotation", jnum("0"));
    push_entry(&mut e, "isLocked", JsonValue::Bool(false));
    push_entry(&mut e, "opacity", jnum("1"));
    push_entry(&mut e, "meta", empty_object());
    push_entry(&mut e, "parentId", jstr("page:page"));
    let d = usize_to_string(ci);
    push_entry(&mut e, "index", jstring(cat("a", d.as_str())));
    push_entry(&mut e, "props", object(p));
    BoardRecord { key, val: object(e) }
}

fn make_node_record(ci: usize, r: usize, n: &GraphNode) -> (rec: BoardRecord)
    requires
        ci < 5,
    ensures
        (rec.key@, rec.val@) == node_record(ci as int, r as int, *n),
{
    let key = cat("shape:", n.id.as_str());
    let t = n.node_type.as_str();
    let mut p = new_entries();
    push_entry(&mut p, "geo", jstr(geo_for_type(t)));
    push_entry(&mut p, "w", fnum_exec(200));
    push_entry(&mut p, "h", fnum_exec(100));
    push_entry(&mut p, "dash", jstr("draw"));
    push_entry(&mut p, "size", jstr("m"));
    push_entry(&mut p, "color", jstr(color_for_type(t)));
    push_entry(&mut p, "fill", jstr("semi"));
    push_entry(&mut p, "text", jstr(n.label.as_str()));
    push_entry(&mut p, "font", jstr("draw"));
    push_entry(&mut p, "textAlign", jstr("middle"));
    push_entry(&mut p, "verticalAlign", jstr("middle"));
    push_entry(&mut p, "growY", jnum("0"));
    push_entry(&mut p, "url", jstr(""));
    push_entry(&mut p, "scale", jnum("1"));
    let mut e = new_entries();
    push_entry(&mut e, "id", jstr(key.as_str()));
    push_entry(&mut e, "type", jstr("geo"));
    push_entry(&mut e, "typeName", jstr("shape"));
    push_entry(&mut e, "x", fnum_exec(ci as i128 * 400));
    push_entry(&mut e, "y", fnum_exec(r as i128 * 200));
    push_entry(&mut e, "rotation", jnum("0"));
    push_entry(&mut e, "isLocked", JsonValue::Bool(false));
    push_entry(&mut e, "opacity", jnum("1"));
    push_entry(&mut e, "meta", empty_object());
    push_entry(&mut e, "parentId", jstr("page:page"));
    let dc = usize_to_string(ci);
    let dr = usize_to_string(r);
    let mut index = cat("b", dc.as_str());
    index.push_str("_");
    index.push_str(dr.as_str());
    push_entry(&mut e, "index", jstring(index));
    push_entry(&mut e, "props", object(p));
    BoardRecord { key, val: object(e) }
}

fn point(x: JsonValue, y: JsonValue) -> (r: JsonValue)
    ensures
        r@ == Json::Object(Seq::empty().push("x"@).push("y"@), Seq::empty().push(x@).push(y@)),
{
    let mut e = new_entries();
    push_entry(&mut e, "x", x);
    push_entry(&mut e, "y", y);
    object(e)
}

fn make_arrow_record(ei: usize, text: &str, fx: i128, fy: i128, tx: i128, ty: i128) -> (r:
    BoardRecord)
    requires
        -0x1_0000_0000_0000_0000_0000 < fx < 0x1_0000_0000_0000_0000_0000,
        -0x1_0000_0000_0000_0000_0000 < fy < 0x1_0000_0000_0000_0000_0000,
        -0x1_0000_0000_0000_0000_0000 < tx < 0x1_0000_0000_0000_0000_0000,
        -0x1_0000_0000_0000_0000_0000 < ty < 0x1_0000_0000_0000_0000_0000,
    ensures
        r.key@ == arrow_key(ei as int),
        forall|e: GraphEdge| edge_text(e) == text@ ==> (r.key@, r.val@) == arrow_record(
            ei as int,
            e,
            (fx as int, fy as int),
            (tx as int, ty as int),
        ),
{
    let d = usize_to_string(ei);
    let key = cat("shape:arrow_", d.as_str());
    let mut p = new_entries();
    push_entry(&mut p, "dash", jstr("draw"));
    push_entry(&mut p, "size", jstr("m"));
    push_entry(&mut p, "fill", jstr("none"));
    push_entry(&mut p, "color", jstr("black"));
    push_entry(&mut p, "labelColor", jstr("black"));
    push_entry(&mut p, "bend", jnum("0"));
    push_entry(&mut p, "start", point(jnum("0"), jnum("0")));
    push_entry(&mut p, "end", point(fnum_exec(tx - fx), fnum_exec(ty - fy)));
    push_entry(&mut p, "arrowheadStart", jstr("none"));
    push_entry(&mut p, "arrowheadEnd", jstr("arrow"));
    push_entry(&mut p, "text", jstr(text));
    push_entry(&mut p, "labelPosition", jnum("0.5"));
    push_entry(&mut p, "font", jstr("draw"));
    push_entry(&mut p, "scale", jnum("1"));
    let mut e = new_entries();
    push_entry(&mut e, "id", jstr(key.as_str()));
    push_entry(&mut e, "type", jstr("arrow"));
    push_entry(&mut e, "typeName", jstr("shape"));
    push_entry(&mut e, "x", fnum_exec(fx + 100));
    push_entry(&mut e, "y", fnum_exec(fy + 50));
    push_entry(&mut e, "rotation", jnum("0"));
    push_entry(&mut e, "isLocked", JsonValue::Bool(false));
    push_entry(&mut e, "opacity", jnum("1"));
    push_entry(&mut e, "meta", empty_object());
    push_entry(&mut e, "parentId", jstr("page:page"));
    push_entry(&mut e, "index", jstring(cat("c", d.as_str())));
    push_entry(&mut e, "props", object(p));
    BoardRecord { key, val: object(e) }
}

fn make_binding_record(ei: usize, terminal: &str, target: &str) -> (r: BoardRecord)
    ensures
        (r.key@, r.val@) == binding_record(ei as int, terminal@, target@),
{
    let d = usize_to_string(ei);
    let mut key = cat("binding:arrow_", d.as_str());
    key.push_str("_");
    key.push_str(terminal);
    let mut p = new_entries();
    push_entry(&mut p, "isPrecise", JsonValue::Bool(false));
    push_entry(&mut p, "isExact", JsonValue::Bool(false));
    push_entry(&mut p, "normalizedAnchor", point(jnum("0.5"), jnum("0.5")));
    push_entry(&mut p, "terminal", jstr(terminal));
    let mut e = new_entries();
    push_entry(&mut e, "id", jstr(key.as_str()));
    push_entry(&mut e, "type", jstr("arrow"));
    push_entry(&mut e, "typeName", jstr("binding"));
    push_entry(&mut e, "fromId", jstring(cat("shape:arrow_", d.as_str())));
    push_entry(&mut e, "toId", jstring(cat("shape:", target)));
    push_entry(&mut e, "meta", empty_object());
    push_entry(&mut e, "props", object(p));
    BoardRecord { key, val: object(e) }
}

fn column_type(k: usize) -> (r: &'static str)
    requires
        k < 5,
    ensures
        r@ == column_order()[k as int],
{
    if k == 0 {
        "location"
    } else if k == 1 {
        "person"
    } else if k == 2 {
        "organization"
    } else if k == 3 {
        "event"
    } else {
        "activity"
    }
}

/// The nodes that a list of indices picks, in order.
pub open spec fn pick(nodes: Seq<GraphNode>, idx: Seq<usize>) -> Seq<GraphNode> {
    Seq::new(idx.len(), |j: int| nodes[idx[j] as int])
}

/// Indices of the nodes of type `t`, in order.
fn col_indices(nodes: &[GraphNode], t: &str) -> (r: Vec<usize>)
    ensures
        forall|j: int| 0 <= j < r.len() ==> #[trigger] r[j] < nodes.len(),
        pick(nodes@, r@) == col_nodes(nodes@, t@),
{
    let mut r: Vec<usize> = Vec::new();
    let mut i: usize = 0;
    assert(pick(nodes@, r@) =~= col_nodes(nodes@.take(0), t@));
    while i < nodes.len()
        invariant
            i <= nodes.len(),
            forall|j: int| 0 <= j < r.len() ==> #[trigger] r[j] < nodes.len(),
            pick(nodes@, r@) == col_nodes(nodes@.take(i as int), t@),
        decreases nodes.len() - i,
    {
        assert(nodes@.take(i + 1).drop_last() == nodes@.take(i as int));
        if str_eq(nodes[i].node_type.as_str(), t) {
            let ghost before = r@;
            r.push(i);
            assert(pick(nodes@, r@) =~= pick(nodes@, before).push(nodes@[i as int]));
        }
        i = i + 1;
    }
    assert(nodes@.take(nodes.len() as int) == nodes@);
    r
}

/// Models of placements.
pub open spec fn pl_model(v: Seq<(String, i128, i128)>) -> Seq<(Seq<char>, int, int)> {
    Seq::new(v.len(), |i: int| (v[i].0@, v[i].1 as int, v[i].2 as int))
}

pub open spec fn pos_bounded(p: (int, int)) -> bool {
    0 <= p.0 <= 1600 && 0 <= p.1 <= 0x1_0000_0000_0000_0000 * 200
}

pub proof fn lemma_last_pos_bounded(p: Seq<(Seq<char>, int, int)>, id: Seq<char>)
    requires
        forall|i: int| 0 <= i < p.len() ==> #[trigger] pos_bounded((p[i].1, p[i].2)),
    ensures
        pos_bounded(last_pos(p, id)),
    decreases p.len(),
{
    if p.len() > 0 {
        assert(pos_bounded((p[p.len() - 1].1, p[p.len() - 1].2)));
        if p.last().0 != id {
            lemma_last_pos_bounded(p.drop_last(), id);
        }
    }
}

/// The position of the last placement of `id`, or the origin.
fn find_pos(pl: &Vec<(String, i128, i128)>, id: &str) -> (r: (i128, i128))
    ensures
        (r.0 as int, r.1 as int) == last_pos(pl_model(pl@), id@),
{
    let ghost m = pl_model(pl@);
    let mut j = pl.len();
    assert(m.take(j as int) == m);
    while j > 0
        invariant
            j <= pl.len(),
            m == pl_model(pl@),
            last_pos(m, id@) == last_pos(m.take(j as int), id@),
        decreases j,
    {
        assert(m.take(j as int).drop_last() == m.take(j - 1));
        if str_eq(pl[j - 1].0.as_str(), id) {
            return (pl[j - 1].1, pl[j - 1].2);
        }
        j = j - 1;
    }
    (0, 0)
}

pub proof fn lemma_take_bytes_step(s: Seq<char>, i: int, n: int)
    requires
        0 <= i < s.len(),
        utf8_len(s[i]) <= n,
    ensures
        take_bytes(s.skip(i), n) == seq![s[i]] + take_bytes(s.skip(i + 1), n - utf8_len(s[i])),
{
    assert(s.skip(i)[0] == s[i]);
    assert(s.skip(i).drop_first() == s.skip(i + 1));
}

/// The text of an edge's arrow.
fn edge_label_text(e: &GraphEdge) -> (r: String)
    ensures
        r@ == edge_text(*e),
{
    match &e.label {
        None => copy(""),
        Some(l) => {
            let cs = chars_of(l.as_str());
            let mut i: usize = 0;
            let mut b: usize = 0;
            assert(cs@.skip(0) == cs@);
            while i < cs.len() && utf8_len_exec(cs[i]) <= 40 - b
                invariant
                    i <= cs.len(),
                    b <= 40,
                    cs@ == l@,
                    take_bytes(cs@, 40) == cs@.take(i as int) + take_bytes(cs@.skip(i as int), 40 - b),
                decreases cs.len() - i,
            {
                proof {
                    lemma_take_bytes_step(cs@, i as int, 40 - b);
                    assert(cs@.take(i + 1) == cs@.take(i as int) + seq![cs@[i as int]]);
                }
                b = b + utf8_len_exec(cs[i]);
                i = i + 1;
            }
            proof {
                if i < cs.len() {
                    assert(take_bytes(cs@.skip(i as int), 40 - b) == Seq::<char>::empty());
                } else {
                    assert(cs@.skip(i as int) == Seq::<char>::empty());
                }
            }
            string_of_range(&cs, 0, i)
        },
    }
}

pub open spec fn rec_model(r: BoardRecord) -> (Seq<char>, Json) {
    (r.key@, r.val@)
}

pub proof fn lemma_records_push(v: Seq<BoardRecord>, x: BoardRecord)
    ensures
        crate::lk::builder::records_model(v.push(x)) == crate::lk::builder::records_model(v).push(
            rec_model(x),
        ),
{
    assert(crate::lk::builder::records_model(v.push(x)) =~= crate::lk::builder::records_model(
        v,
    ).push(rec_model(x)));
}

pub proof fn lemma_pl_push(v: Seq<(String, i128, i128)>, x: (String, i128, i128))
    ensures
        pl_model(v.push(x)) == pl_model(v).push((x.0@, x.1 as int, x.2 as int)),
{
    assert(pl_model(v.push(x)) =~= pl_model(v).push((x.0@, x.1 as int, x.2 as int)));
}

/// Lays a graph out on a board: one column per node type present (location,
/// person, organization, event, activity), a header above each column, one
/// shape per node, and an arrow bound to its two nodes per edge.
pub fn graph_to_board_content(nodes: &[GraphNode], edges: &[GraphEdge]) -> (r: BoardContent)
    requires
        forall|k: int| 0 <= k < edges.len() ==> label_cuttable(#[trigger] edges@[k]),
    ensures
        r.shapes@.len() == 0,
        r.bindings@.len() == 0,
        crate::lk::builder::records_model(r.shapes_v2@) == board_records(nodes@, edges@),
{
    let mut records: Vec<BoardRecord> = Vec::new();
    let d = make_doc_record();
    proof { lemma_records_push(records@, d); }
    records.push(d);
    let pg = make_page_record();
    proof { lemma_records_push(records@, pg); }
    records.push(pg);
    let ghost base = crate::lk::builder::records_model(records@);
    assert(base =~= seq![doc_record(), page_record()]);
    // The columns present, with the indices of their nodes.
    let mut col_types: Vec<&str> = Vec::new();
    let mut col_members: Vec<Vec<usize>> = Vec::new();
    let mut k: usize = 0;
    while k < 5
        invariant
            k <= 5,
            col_types.len() == col_members.len(),
            Seq::new(col_types.len() as nat, |c: int| col_types[c]@) == present_cols(nodes@, k as int),
            forall|c: int| 0 <= c < col_members.len() ==> pick(nodes@, #[trigger] col_members[c]@) == col_nodes(nodes@, col_types[c]@),
            forall|c: int, j: int| 0 <= c < col_members.len() && 0 <= j < col_members[c].len() ==> #[trigger] col_members[c][j] < nodes.len(),
        decreases 5 - k,
    {
        let t = column_type(k);
        let members = col_indices(nodes, t);
        if members.len() > 0 {
            let ghost before = Seq::new(col_types.len() as nat, |c: int| col_types[c]@);
            col_types.push(t);
            col_members.push(members);
            assert(Seq::new(col_types.len() as nat, |c: int| col_types[c]@) =~= before.push(t@));
        } else {
            assert(col_nodes(nodes@, t@).len() == 0);
        }
        k = k + 1;
    }
    let ghost cols = columns(nodes@);
    assert(Seq::new(col_types.len() as nat, |c: int| col_types[c]@) == cols);
    let mut pl: Vec<(String, i128, i128)> = Vec::new();
    let mut ci: usize = 0;
    assert(pl_model(pl@) =~= Seq::<(Seq<char>, int, int)>::empty());
    assert(col_types.len() <= 5) by {
        lemma_present_cols_len(nodes@, 5);
    }
    while ci < col_types.len()
        invariant
            ci <= col_types.len() <= 5,
            col_types.len() == col_members.len(),
            cols == columns(nodes@),
            Seq::new(col_types.len() as nat, |c: int| col_types[c]@) == cols,
            forall|c: int| 0 <= c < col_members.len() ==> pick(nodes@, #[trigger] col_members[c]@) == col_nodes(nodes@, col_types[c]@),
            forall|c: int, j: int| 0 <= c < col_members.len() && 0 <= j < col_members[c].len() ==> #[trigger] col_members[c][j] < nodes.len(),
            crate::lk::builder::records_model(records@) + column_records(nodes@, cols, ci as int)
                == base + column_records(nodes@, cols, 0),
            pl_model(pl@) + placements(nodes@, cols, ci as int) == placements(nodes@, cols, 0),
            forall|i: int| 0 <= i < pl.len() ==> #[trigger] pos_bounded((pl[i].1 as int, pl[i].2 as int)),
            base == seq![doc_record(), page_record()],
        decreases col_types.len() - ci,
    {
        let t = col_types[ci];
        let members = &col_members[ci];
        let ghost col = col_nodes(nodes@, cols[ci as int]);
        assert(cols[ci as int] == t@);
        let ghost rec0 = crate::lk::builder::records_model(records@);
        let ghost pl0 = pl_model(pl@);
        let tr = make_title_record(ci, t);
        proof { lemma_records_push(records@, tr); }
        records.push(tr);
        let mut r: usize = 0;
        while r < members.len()
            invariant
                ci < col_types.len() <= 5,
                r <= members.len(),
                pick(nodes@, members@) == col,
                col == col_nodes(nodes@, t@),
                forall|j: int| 0 <= j < members.len() ==> #[trigger] members[j] < nodes.len(),
                crate::lk::builder::records_model(records@) == rec0.push(title_record(ci as int, t@))
                    + Seq::new(r as nat, |rr: int| node_record(ci as int, rr, col[rr])),
                pl_model(pl@) == pl0 + Seq::new(r as nat, |rr: int| (col[rr].id@, ci * 400, rr * 200)),
                forall|i: int| 0 <= i < pl.len() ==> #[trigger] pos_bounded((pl[i].1 as int, pl[i].2 as int)),
            decreases members.len() - r,
        {
            let n = &nodes[members[r]];
            assert(col[r as int] == *n);
            let ghost pb = pl_model(pl@);
            let id = copy(n.id.as_str());
            let x: i128 = ci as i128 * 400;
            let y: i128 = r as i128 * 200;
            proof { lemma_pl_push(pl@, (id, x, y)); }
            pl.push((id, x, y));
            assert(pl_model(pl@) =~= pl0 + Seq::new((r + 1) as nat, |rr: int| (col[rr].id@, ci * 400, rr * 200)));
            let nr = make_node_record(ci, r, n);
            proof { lemma_records_push(records@, nr); }
            records.push(nr);
            assert(crate::lk::builder::records_model(records@) =~= rec0.push(title_record(ci as int, t@))
                    + Seq::new((r + 1) as nat, |rr: int| node_record(ci as int, rr, col[rr])));
            r = r + 1;
        }
        assert(col.len() == members.len());
        assert(column_records(nodes@, cols, ci as int) == seq![title_record(ci as int, t@)] + Seq::new(col.len(), |rr: int| node_record(ci as int, rr, col[rr])) + column_records(nodes@, cols, ci + 1));
        assert(crate::lk::builder::records_model(records@) + column_records(nodes@, cols, ci + 1)
            =~= base + column_records(nodes@, cols, 0));
        assert(placements(nodes@, cols, ci as int) == Seq::new(col.len(), |rr: int| (col[rr].id@, ci * 400, rr * 200)) + placements(nodes@, cols, ci + 1));
        assert(pl_model(pl@) + placements(nodes@, cols, ci + 1) =~= placements(nodes@, cols, 0));
        ci = ci + 1;
    }
    assert(placements(nodes@, cols, ci as int) == Seq::<(Seq<char>, int, int)>::empty());
    assert(pl_model(pl@) =~= placements(nodes@, cols, 0));
    let ghost p = placements(nodes@, cols, 0);
    let ghost mid = crate::lk::builder::records_model(records@);
    assert(mid =~= base + column_records(nodes@, cols, 0));
    let mut ei: usize = 0;
    assert(edge_records(edges@, p, 0) =~= Seq::<(Seq<char>, Json)>::empty() + edge_records(edges@, p, 0));
    assert(mid + edge_records(edges@, p, 0) =~= base + column_records(nodes@, cols, 0) + edge_records(edges@, p, 0));
    while ei < edges.len()
        invariant
            ei <= edges.len(),
            p == pl_model(pl@),
            forall|i: int| 0 <= i < pl.len() ==> #[trigger] pos_bounded((pl[i].1 as int, pl[i].2 as int)),
            crate::lk::builder::records_model(records@) + edge_records(edges@, p, ei as int)
                == base + column_records(nodes@, cols, 0) + edge_records(edges@, p, 0),
        decreases edges.len() - ei,
    {
        let e = &edges[ei];
        let f = find_pos(&pl, e.from.as_str());
        let t = find_pos(&pl, e.to.as_str());
        proof {
            assert forall|i: int| 0 <= i < p.len() implies #[trigger] pos_bounded((p[i].1, p[i].2)) by {
                assert(pos_bounded((pl[i].1 as int, pl[i].2 as int)));
            }
            lemma_last_pos_bounded(p, e.from@);
            lemma_last_pos_bounded(p, e.to@);
        }
        let text = edge_label_text(e);
        let ghost r0 = crate::lk::builder::records_model(records@);
        let ar = make_arrow_record(ei, text.as_str(), f.0, f.1, t.0, t.1);
        proof { lemma_records_push(records@, ar); }
        records.push(ar);
        let sb = make_binding_record(ei, "start", e.from.as_str());
        proof { lemma_records_push(records@, sb); }
        records.push(sb);
        let eb = make_binding_record(ei, "end", e.to.as_str());
        proof { lemma_records_push(records@, eb); }
        records.push(eb);
        assert(crate::lk::builder::records_model(records@) + edge_records(edges@, p, ei + 1) =~= r0 + edge_records(edges@, p, ei as int));
        ei = ei + 1;
    }
    assert(edge_records(edges@, p, ei as int) == Seq::<(Seq<char>, Json)>::empty());
    assert(crate::lk::builder::records_model(records@) =~= board_records(nodes@, edges@));
    BoardContent { shapes: Vec::new(), bindings: Vec::new(), shapes_v2: records }
}

pub proof fn lemma_present_cols_len(nodes: Seq<GraphNode>, k: int)
    ensures
        present_cols(nodes, k).len() <= if k < 0 { 0 } else { k },
    decreases k,
{
    if k > 0 {
        lemma_present_cols_len(nodes, k - 1);
    }
}

// ---------------------------------------------------------------------------
// The generated board passes the board check
// ---------------------------------------------------------------------------

/// The characters of the keys and type names of board records.
proof fn lemma_lits()
    ensures
        "id"@.len() == 2,
        "id"@[0] == 'i',
        "id"@[1] == 'd',
        "type"@.len() == 4,
        "type"@[0] == 't',
        "type"@[1] == 'y',
        "type"@[2] == 'p',
        "type"@[3] == 'e',
        "typeName"@.len() == 8,
        "typeName"@[0] == 't',
        "typeName"@[1] == 'y',
        "typeName"@[2] == 'p',
        "typeName"@[3] == 'e',
        "typeName"@[4] == 'N',
        "typeName"@[5] == 'a',
        "typeName"@[6] == 'm',
        "typeName"@[7] == 'e',
        "x"@.len() == 1,
        "x"@[0] == 'x',
        "y"@.len() == 1,
        "y"@[0] == 'y',
        "rotation"@.len() == 8,
        "rotation"@[0] == 'r',
        "rotation"@[1] == 'o',
        "rotation"@[2] == 't',
        "rotation"@[3] == 'a',
        "rotation"@[4] == 't',
        "rotation"@[5] == 'i',
        "rotation"@[6] == 'o',
        "rotation"@[7] == 'n',
        "isLocked"@.len() == 8,
        "isLocked"@[0] == 'i',
        "isLocked"@[1] == 's',
        "isLocked"@[2] == 'L',
        "isLocked"@[3] == 'o',
        "isLocked"@[4] == 'c',
        "isLocked"@[5] == 'k',
        "isLocked"@[6] == 'e',
        "isLocked"@[7] == 'd',
        "opacity"@.len() == 7,
        "opacity"@[0] == 'o',
        "opacity"@[1] == 'p',
        "opacity"@[2] == 'a',
        "opacity"@[3] == 'c',
        "opacity"@[4] == 'i',
        "opacity"@[5] == 't',
        "opacity"@[6] == 'y',
        "meta"@.len() == 4,
        "meta"@[0] == 'm',
        "meta"@[1] == 'e',
        "meta"@[2] == 't',
        "meta"@[3] == 'a',
        "parentId"@.len() == 8,
        "parentId"@[0] == 'p',
        "parentId"@[1] == 'a',
        "parentId"@[2] == 'r',
        "parentId"@[3] == 'e',
        "parentId"@[4] == 'n',
        "parentId"@[5] == 't',
        "parentId"@[6] == 'I',
        "parentId"@[7] == 'd',
        "index"@.len() == 5,
        "index"@[0] == 'i',
        "index"@[1] == 'n',
        "index"@[2] == 'd',
        "index"@[3] == 'e',
        "index"@[4] == 'x',
        "props"@.len() == 5,
        "props"@[0] == 'p',
        "props"@[1] == 'r',
        "props"@[2] == 'o',
        "props"@[3] == 'p',
        "props"@[4] == 's',
        "gridSize"@.len() == 8,
        "gridSize"@[0] == 'g',
        "gridSize"@[1] == 'r',
        "gridSize"@[2] == 'i',
        "gridSize"@[3] == 'd',
        "gridSize"@[4] == 'S',
        "gridSize"@[5] == 'i',
        "gridSize"@[6] == 'z',
        "gridSize"@[7] == 'e',
        "name"@.len() == 4,
        "name"@[0] == 'n',
        "name"@[1] == 'a',
        "name"@[2] == 'm',
        "name"@[3] == 'e',
        "fromId"@.len() == 6,
        "fromId"@[0] == 'f',
        "fromId"@[1] == 'r',
        "fromId"@[2] == 'o',
        "fromId"@[3] == 'm',
        "fromId"@[4] == 'I',
        "fromId"@[5] == 'd',
        "toId"@.len() == 4,
        "toId"@[0] == 't',
        "toId"@[1] == 'o',
        "toId"@[2] == 'I',
        "toId"@[3] == 'd',
        "scale"@.len() == 5,
        "scale"@[0] == 's',
        "scale"@[1] == 'c',
        "scale"@[2] == 'a',
        "scale"@[3] == 'l',
        "scale"@[4] == 'e',
        "shape"@.len() == 5,
        "shape"@[0] == 's',
        "shape"@[1] == 'h',
        "shape"@[2] == 'a',
        "shape"@[3] == 'p',
        "shape"@[4] == 'e',
        "binding"@.len() == 7,
        "binding"@[0] == 'b',
        "binding"@[1] == 'i',
        "binding"@[2] == 'n',
        "binding"@[3] == 'd',
        "binding"@[4] == 'i',
        "binding"@[5] == 'n',
        "binding"@[6] == 'g',
        "document"@.len() == 8,
        "document"@[0] == 'd',
        "document"@[1] == 'o',
        "document"@[2] == 'c',
        "document"@[3] == 'u',
        "document"@[4] == 'm',
        "document"@[5] == 'e',
        "document"@[6] == 'n',
        "document"@[7] == 't',
        "page"@.len() == 4,
        "page"@[0] == 'p',
        "page"@[1] == 'a',
        "page"@[2] == 'g',
        "page"@[3] == 'e',
        "color"@.len() == 5,
        "color"@[0] == 'c',
        "color"@[1] == 'o',
        "color"@[2] == 'l',
        "color"@[3] == 'o',
        "color"@[4] == 'r',
        "size"@.len() == 4,
        "size"@[0] == 's',
        "size"@[1] == 'i',
        "size"@[2] == 'z',
        "size"@[3] == 'e',
        "w"@.len() == 1,
        "w"@[0] == 'w',
        "text"@.len() == 4,
        "text"@[0] == 't',
        "text"@[1] == 'e',
        "text"@[2] == 'x',
        "text"@[3] == 't',
        "font"@.len() == 4,
        "font"@[0] == 'f',
        "font"@[1] == 'o',
        "font"@[2] == 'n',
        "font"@[3] == 't',
        "textAlign"@.len() == 9,
        "textAlign"@[0] == 't',
        "textAlign"@[1] == 'e',
        "textAlign"@[2] == 'x',
        "textAlign"@[3] == 't',
        "textAlign"@[4] == 'A',
        "textAlign"@[5] == 'l',
        "textAlign"@[6] == 'i',
        "textAlign"@[7] == 'g',
        "textAlign"@[8] == 'n',
        "autoSize"@.len() == 8,
        "autoSize"@[0] == 'a',
        "autoSize"@[1] == 'u',
        "autoSize"@[2] == 't',
        "autoSize"@[3] == 'o',
        "autoSize"@[4] == 'S',
        "autoSize"@[5] == 'i',
        "autoSize"@[6] == 'z',
        "autoSize"@[7] == 'e',
        "geo"@.len() == 3,
        "geo"@[0] == 'g',
        "geo"@[1] == 'e',
        "geo"@[2] == 'o',
        "h"@.len() == 1,
        "h"@[0] == 'h',
        "dash"@.len() == 4,
        "dash"@[0] == 'd',
        "dash"@[1] == 'a',
        "dash"@[2] == 's',
        "dash"@[3] == 'h',
        "fill"@.len() == 4,
        "fill"@[0] == 'f',
        "fill"@[1] == 'i',
        "fill"@[2] == 'l',
        "fill"@[3] == 'l',
        "verticalAlign"@.len() == 13,
        "verticalAlign"@[0] == 'v',
        "verticalAlign"@[1] == 'e',
        "verticalAlign"@[2] == 'r',
        "verticalAlign"@[3] == 't',
        "verticalAlign"@[4] == 'i',
        "verticalAlign"@[5] == 'c',
        "verticalAlign"@[6] == 'a',
        "verticalAlign"@[7] == 'l',
        "verticalAlign"@[8] == 'A',
        "verticalAlign"@[9] == 'l',
        "verticalAlign"@[10] == 'i',
        "verticalAlign"@[11] == 'g',
        "verticalAlign"@[12] == 'n',
        "growY"@.len() == 5,
        "growY"@[0] == 'g',
        "growY"@[1] == 'r',
        "growY"@[2] == 'o',
        "growY"@[3] == 'w',
        "growY"@[4] == 'Y',
        "url"@.len() == 3,
        "url"@[0] == 'u',
        "url"@[1] == 'r',
        "url"@[2] == 'l',
        "labelColor"@.len() == 10,
        "labelColor"@[0] == 'l',
        "labelColor"@[1] == 'a',
        "labelColor"@[2] == 'b',
        "labelColor"@[3] == 'e',
        "labelColor"@[4] == 'l',
        "labelColor"@[5] == 'C',
        "labelColor"@[6] == 'o',
        "labelColor"@[7] == 'l',
        "labelColor"@[8] == 'o',
        "labelColor"@[9] == 'r',
        "bend"@.len() == 4,
        "bend"@[0] == 'b',
        "bend"@[1] == 'e',
        "bend"@[2] == 'n',
        "bend"@[3] == 'd',
        "start"@.len() == 5,
        "start"@[0] == 's',
        "start"@[1] == 't',
        "start"@[2] == 'a',
        "start"@[3] == 'r',
        "start"@[4] == 't',
        "end"@.len() == 3,
        "end"@[0] == 'e',
        "end"@[1] == 'n',
        "end"@[2] == 'd',
        "arrowheadStart"@.len() == 14,
        "arrowheadStart"@[0] == 'a',
        "arrowheadStart"@[1] == 'r',
        "arrowheadStart"@[2] == 'r',
        "arrowheadStart"@[3] == 'o',
        "arrowheadStart"@[4] == 'w',
        "arrowheadStart"@[5] == 'h',
        "arrowheadStart"@[6] == 'e',
        "arrowheadStart"@[7] == 'a',
        "arrowheadStart"@[8] == 'd',
        "arrowheadStart"@[9] == 'S',
        "arrowheadStart"@[10] == 't',
        "arrowheadStart"@[11] == 'a',
        "arrowheadStart"@[12] == 'r',
        "arrowheadStart"@[13] == 't',
        "arrowheadEnd"@.len() == 12,
        "arrowheadEnd"@[0] == 'a',
        "arrowheadEnd"@[1] == 'r',
        "arrowheadEnd"@[2] == 'r',
        "arrowheadEnd"@[3] == 'o',
        "arrowheadEnd"@[4] == 'w',
        "arrowheadEnd"@[5] == 'h',
        "arrowheadEnd"@[6] == 'e',
        "arrowheadEnd"@[7] == 'a',
        "arrowheadEnd"@[8] == 'd',
        "arrowheadEnd"@[9] == 'E',
        "arrowheadEnd"@[10] == 'n',
        "arrowheadEnd"@[11] == 'd',
        "labelPosition"@.len() == 13,
        "labelPosition"@[0] == 'l',
        "labelPosition"@[1] == 'a',
        "labelPosition"@[2] == 'b',
        "labelPosition"@[3] == 'e',
        "labelPosition"@[4] == 'l',
        "labelPosition"@[5] == 'P',
        "labelPosition"@[6] == 'o',
        "labelPosition"@[7] == 's',
        "labelPosition"@[8] == 'i',
        "labelPosition"@[9] == 't',
        "labelPosition"@[10] == 'i',
        "labelPosition"@[11] == 'o',
        "labelPosition"@[12] == 'n',
{
    reveal_strlit("id");
    assert("id"@ =~= Seq::<char>::empty().push('i').push('d'));
    reveal_strlit("type");
    assert("type"@ =~= Seq::<char>::empty().push('t').push('y').push('p').push('e'));
    reveal_strlit("typeName");
    assert("typeName"@ =~= Seq::<char>::empty().push('t').push('y').push('p').push('e').push('N').push('a').push('m').push('e'));
    reveal_strlit("x");
    assert("x"@ =~= Seq::<char>::empty().push('x'));
    reveal_strlit("y");
    assert("y"@ =~= Seq::<char>::empty().push('y'));
    reveal_strlit("rotation");
    assert("rotation"@ =~= Seq::<char>::empty().push('r').push('o').push('t').push('a').push('t').push('i').push('o').push('n'));
    reveal_strlit("isLocked");
    assert("isLocked"@ =~= Seq::<char>::empty().push('i').push('s').push('L').push('o').push('c').push('k').push('e').push('d'));
    reveal_strlit("opacity");
    assert("opacity"@ =~= Seq::<char>::empty().push('o').push('p').push('a').push('c').push('i').push('t').push('y'));
    reveal_strlit("meta");
    assert("meta"@ =~= Seq::<char>::empty().push('m').push('e').push('t').push('a'));
    reveal_strlit("parentId");
    assert("parentId"@ =~= Seq::<char>::empty().push('p').push('a').push('r').push('e').push('n').push('t').push('I').push('d'));
    reveal_strlit("index");
    assert("index"@ =~= Seq::<char>::empty().push('i').push('n').push('d').push('e').push('x'));
    reveal_strlit("props");
    assert("props"@ =~= Seq::<char>::empty().push('p').push('r').push('o').push('p').push('s'));
    reveal_strlit("gridSize");
    assert("gridSize"@ =~= Seq::<char>::empty().push('g').push('r').push('i').push('d').push('S').push('i').push('z').push('e'));
    reveal_strlit("name");
    assert("name"@ =~= Seq::<char>::empty().push('n').push('a').push('m').push('e'));
    reveal_strlit("fromId");
    assert("fromId"@ =~= Seq::<char>::empty().push('f').push('r').push('o').push('m').push('I').push('d'));
    reveal_strlit("toId");
    assert("toId"@ =~= Seq::<char>::empty().push('t').push('o').push('I').push('d'));
    reveal_strlit("scale");
    assert("scale"@ =~= Seq::<char>::empty().push('s').push('c').push('a').push('l').push('e'));
    reveal_strlit("shape");
    assert("shape"@ =~= Seq::<char>::empty().push('s').push('h').push('a').push('p').push('e'));
    reveal_strlit("binding");
    assert("binding"@ =~= Seq::<char>::empty().push('b').push('i').push('n').push('d').push('i').push('n').push('g'));
    reveal_strlit("document");
    assert("document"@ =~= Seq::<char>::empty().push('d').push('o').push('c').push('u').push('m').push('e').push('n').push('t'));
    reveal_strlit("page");
    assert("page"@ =~= Seq::<char>::empty().push('p').push('a').push('g').push('e'));
    reveal_strlit("color");
    assert("color"@ =~= Seq::<char>::empty().push('c').push('o').push('l').push('o').push('r'));
    reveal_strlit("size");
    assert("size"@ =~= Seq::<char>::empty().push('s').push('i').push('z').push('e'));
    reveal_strlit("w");
    assert("w"@ =~= Seq::<char>::empty().push('w'));
    reveal_strlit("text");
    assert("text"@ =~= Seq::<char>::empty().push('t').push('e').push('x').push('t'));
    reveal_strlit("font");
    assert("font"@ =~= Seq::<char>::empty().push('f').push('o').push('n').push('t'));
    reveal_strlit("textAlign");
    assert("textAlign"@ =~= Seq::<char>::empty().push('t').push('e').push('x').push('t').push('A').push('l').push('i').push('g').push('n'));
    reveal_strlit("autoSize");
    assert("autoSize"@ =~= Seq::<char>::empty().push('a').push('u').push('t').push('o').push('S').push('i').push('z').push('e'));
    reveal_strlit("geo");
    assert("geo"@ =~= Seq::<char>::empty().push('g').push('e').push('o'));
    reveal_strlit("h");
    assert("h"@ =~= Seq::<char>::empty().push('h'));
    reveal_strlit("dash");
    assert("dash"@ =~= Seq::<char>::empty().push('d').push('a').push('s').push('h'));
    reveal_strlit("fill");
    assert("fill"@ =~= Seq::<char>::empty().push('f').push('i').push('l').push('l'));
    reveal_strlit("verticalAlign");
    assert("verticalAlign"@ =~= Seq::<char>::empty().push('v').push('e').push('r').push('t').push('i').push('c').push('a').push('l').push('A').push('l').push('i').push('g').push('n'));
    reveal_strlit("growY");
    assert("growY"@ =~= Seq::<char>::empty().push('g').push('r').push('o').push('w').push('Y'));
    reveal_strlit("url");
    assert("url"@ =~= Seq::<char>::empty().push('u').push('r').push('l'));
    reveal_strlit("labelColor");
    assert("labelColor"@ =~= Seq::<char>::empty().push('l').push('a').push('b').push('e').push('l').push('C').push('o').push('l').push('o').push('r'));
    reveal_strlit("bend");
    assert("bend"@ =~= Seq::<char>::empty().push('b').push('e').push('n').push('d'));
    reveal_strlit("start");
    assert("start"@ =~= Seq::<char>::empty().push('s').push('t').push('a').push('r').push('t'));
    reveal_strlit("end");
    assert("end"@ =~= Seq::<char>::empty().push('e').push('n').push('d'));
    reveal_strlit("arrowheadStart");
    assert("arrowheadStart"@ =~= Seq::<char>::empty().push('a').push('r').push('r').push('o').push('w').push('h').push('e').push('a').push('d').push('S').push('t').push('a').push('r').push('t'));
    reveal_strlit("arrowheadEnd");
    assert("arrowheadEnd"@ =~= Seq::<char>::empty().push('a').push('r').push('r').push('o').push('w').push('h').push('e').push('a').push('d').push('E').push('n').push('d'));
    reveal_strlit("labelPosition");
    assert("labelPosition"@ =~= Seq::<char>::empty().push('l').push('a').push('b').push('e').push('l').push('P').push('o').push('s').push('i').push('t').push('i').push('o').push('n'));
}

/// A record that the board check accepts wherever it stands.
pub open spec fn record_fine(r: (Seq<char>, Json)) -> bool {
    forall|i: int| #[trigger] record_error(i, r.0, r.1) is None
}


proof fn lemma_doc_fine()
    ensures
        record_fine(doc_record()),
        record_fine(page_record()),
{
    lemma_lits();
    reveal_with_fuel(crate::json::key_index, 8);
    assert forall|i: int| #[trigger] record_error(i, doc_record().0, doc_record().1) is None by {}
    assert forall|i: int| #[trigger] record_error(i, page_record().0, page_record().1) is None by {}
}

proof fn lemma_title_fine(ci: int, t: Seq<char>)
    ensures
        record_fine(title_record(ci, t)),
{
    lemma_lits();
    reveal_with_fuel(crate::json::key_index, 16);
    reveal_with_fuel(first_missing, 5);
    let r = title_record(ci, t);
    assert forall|i: int| #[trigger] record_error(i, r.0, r.1) is None by {}
}

proof fn lemma_node_fine(ci: int, row: int, n: GraphNode)
    ensures
        record_fine(node_record(ci, row, n)),
{
    lemma_lits();
    reveal_with_fuel(crate::json::key_index, 16);
    reveal_with_fuel(first_missing, 5);
    let r = node_record(ci, row, n);
    assert forall|i: int| #[trigger] record_error(i, r.0, r.1) is None by {}
}

proof fn lemma_arrow_fine(ei: int, e: GraphEdge, f: (int, int), t: (int, int))
    ensures
        record_fine(arrow_record(ei, e, f, t)),
{
    lemma_lits();
    reveal_with_fuel(crate::json::key_index, 16);
    reveal_with_fuel(first_missing, 5);
    let r = arrow_record(ei, e, f, t);
    assert forall|i: int| #[trigger] record_error(i, r.0, r.1) is None by {}
}

proof fn lemma_binding_fine(ei: int, terminal: Seq<char>, target: Seq<char>)
    ensures
        record_fine(binding_record(ei, terminal, target)),
{
    lemma_lits();
    reveal_with_fuel(crate::json::key_index, 16);
    reveal_with_fuel(first_missing, 5);
    let r = binding_record(ei, terminal, target);
    assert forall|i: int| #[trigger] record_error(i, r.0, r.1) is None by {}
}

proof fn lemma_columns_fine(nodes: Seq<GraphNode>, cols: Seq<Seq<char>>, ci: int)
    ensures
        forall|j: int| 0 <= j < column_records(nodes, cols, ci).len() ==> record_fine(
            #[trigger] column_records(nodes, cols, ci)[j],
        ),
    decreases cols.len() - ci,
{
    if 0 <= ci < cols.len() {
        lemma_columns_fine(nodes, cols, ci + 1);
        lemma_title_fine(ci, cols[ci]);
        let col = col_nodes(nodes, cols[ci]);
        let a = seq![title_record(ci, cols[ci])] + Seq::new(
            col.len(),
            |r: int| node_record(ci, r, col[r]),
        );
        let rest = column_records(nodes, cols, ci + 1);
        assert forall|j: int| 0 <= j < column_records(nodes, cols, ci).len() implies record_fine(
            #[trigger] column_records(nodes, cols, ci)[j],
        ) by {
            if j == 0 {
            } else if j < a.len() {
                lemma_node_fine(ci, j - 1, col[j - 1]);
            } else {
                assert(column_records(nodes, cols, ci)[j] == rest[j - a.len()]);
            }
        }
    }
}

proof fn lemma_edges_fine(edges: Seq<GraphEdge>, p: Seq<(Seq<char>, int, int)>, ei: int)
    ensures
        forall|j: int| 0 <= j < edge_records(edges, p, ei).len() ==> record_fine(
            #[trigger] edge_records(edges, p, ei)[j],
        ),
    decreases edges.len() - ei,
{
    if 0 <= ei < edges.len() {
        lemma_edges_fine(edges, p, ei + 1);
        let e = edges[ei];
        lemma_arrow_fine(ei, e, last_pos(p, e.from@), last_pos(p, e.to@));
        lemma_binding_fine(ei, "start"@, e.from@);
        lemma_binding_fine(ei, "end"@, e.to@);
        let rest = edge_records(edges, p, ei + 1);
        assert forall|j: int| 0 <= j < edge_records(edges, p, ei).len() implies record_fine(
            #[trigger] edge_records(edges, p, ei)[j],
        ) by {
            if j >= 3 {
                assert(edge_records(edges, p, ei)[j] == rest[j - 3]);
            }
        }
    }
}

proof fn lemma_fine_no_error(recs: Seq<(Seq<char>, Json)>, i: int)
    requires
        forall|j: int| 0 <= j < recs.len() ==> record_fine(#[trigger] recs[j]),
    ensures
        records_error(recs, i) is None,
    decreases recs.len() - i,
{
    if 0 <= i < recs.len() {
        assert(record_fine(recs[i]));
        assert(record_error(i, recs[i].0, recs[i].1) is None);
        lemma_fine_no_error(recs, i + 1);
    }
}

/// Every board laid out from a graph passes the board check that Legend
/// Keeper imports need: each record has the fields its kind requires.
pub proof fn law_generated_board_is_valid(nodes: Seq<GraphNode>, edges: Seq<GraphEdge>)
    ensures
        records_error(board_records(nodes, edges), 0) is None,
{
    let cols = columns(nodes);
    let recs = board_records(nodes, edges);
    let cr = column_records(nodes, cols, 0);
    let er = edge_records(edges, placements(nodes, cols, 0), 0);
    lemma_doc_fine();
    lemma_columns_fine(nodes, cols, 0);
    lemma_edges_fine(edges, placements(nodes, cols, 0), 0);
    assert forall|j: int| 0 <= j < recs.len() implies record_fine(#[trigger] recs[j]) by {
        if j >= 2 + cr.len() {
            assert(recs[j] == er[j - 2 - cr.len()]);
        } else if j >= 2 {
            assert(recs[j] == cr[j - 2]);
        }
    }
    lemma_fine_no_error(recs, 0);
}

/// The layout is a function of the graph alone: two boards laid out from
/// the same nodes and edges hold the same records.
pub proof fn law_layout_deterministic(
    b1: BoardContent,
    b2: BoardContent,
    nodes: Seq<GraphNode>,
    edges: Seq<GraphEdge>,
)
    requires
        crate::lk::builder::records_model(b1.shapes_v2@) == board_records(nodes, edges),
        crate::lk::builder::records_model(b2.shapes_v2@) == board_records(nodes, edges),
    ensures
        crate::lk::builder::records_model(b1.shapes_v2@) == crate::lk::builder::records_model(
            b2.shapes_v2@,
        ),
{
}

fn copy(s: &str) -> (r: String)
    ensures
        r@ == s@,
{
    crate::text::copy_str(s)
}

} // verus!
