//! ProseMirror JSON to markdown.

use vstd::prelude::*;
use crate::json::{Json, JsonValue, ekeys, evals, get_str, json_get, json_u64, key_index,
    lemma_key_index, lemma_object_view, push_entry, jstring};
use crate::text::{byte_len, lines_spec, nat_dec, trim_end_spec, trim_spec};

verus! {

broadcast use vstd::string::group_string_axioms;

// ---------------------------------------------------------------------------
// ProseMirror nodes
// ---------------------------------------------------------------------------

/// Model of a mark.
pub struct MarkTree {
    pub ty: Seq<char>,
    pub attrs: Option<Json>,
}

/// Model of a node.
pub struct PmTree {
    pub ty: Seq<char>,
    pub attrs: Option<Json>,
    pub content: Option<Seq<PmTree>>,
    pub marks: Option<Seq<MarkTree>>,
    pub text: Option<Seq<char>>,
}

pub open spec fn empty_pm() -> PmTree {
    PmTree { ty: seq![], attrs: None, content: None, marks: None, text: None }
}

// ---------------------------------------------------------------------------
// Reading nodes from JSON
// ---------------------------------------------------------------------------

/// A field of an object; a `null` counts as absent.
pub open spec fn opt_field(j: Json, k: Seq<char>) -> Option<Json> {
    match json_get(j, k) {
        Some(Json::Null) => None,
        o => o,
    }
}

pub proof fn lemma_get_decreases(j: Json, k: Seq<char>)
    ensures
        json_get(j, k) matches Some(Json::Array(a)) ==> decreases_to!(j => a),
{
    if let Json::Object(ks, vs) = j {
        let i = key_index(ks, k, 0);
        if 0 <= i < ks.len() && i < vs.len() {
            if let Json::Array(a) = vs[i] {
                assert(decreases_to!(j => vs));
                assert(decreases_to!(vs => vs[i]));
                assert(decreases_to!(vs[i] => a));
            }
        }
    }
}

pub open spec fn decode_obj_mark(j: Json) -> Option<MarkTree> {
    if j is Object {
        match get_str(j, "type"@) {
            Some(t) => Some(MarkTree { ty: t, attrs: opt_field(j, "attrs"@) }),
            None => None,
        }
    } else {
        None
    }
}

pub open spec fn decode_obj_marks(a: Seq<Json>) -> Option<Seq<MarkTree>>
    decreases a.len(),
{
    if a.len() == 0 {
        Some(seq![])
    } else {
        match (decode_obj_marks(a.drop_last()), decode_obj_mark(a.last())) {
            (Some(s), Some(m)) => Some(s.push(m)),
            _ => None,
        }
    }
}

/// A node in object form, all the way down: an object with a string `type`;
/// `attrs` anything; `content` an array of such nodes, `marks` an array of
/// mark objects and `text` a string, each where present and not null.
pub open spec fn decode_obj_node(j: Json) -> Option<PmTree>
    decreases j, 1int,
{
    if !(j is Object) {
        None
    } else {
        match get_str(j, "type"@) {
            None => None,
            Some(t) => {
                proof {
                    lemma_get_decreases(j, "content"@);
                }
                let content: Option<Option<Seq<PmTree>>> = match opt_field(j, "content"@) {
                    None => Some(None),
                    Some(Json::Array(a)) => match decode_obj_nodes(a) {
                        Some(s) => Some(Some(s)),
                        None => None,
                    },
                    _ => None,
                };
                let marks: Option<Option<Seq<MarkTree>>> = match opt_field(j, "marks"@) {
                    None => Some(None),
                    Some(Json::Array(a)) => match decode_obj_marks(a) {
                        Some(s) => Some(Some(s)),
                        None => None,
                    },
                    _ => None,
                };
                let text: Option<Option<Seq<char>>> = match opt_field(j, "text"@) {
                    None => Some(None),
                    Some(Json::Str(s)) => Some(Some(s)),
                    _ => None,
                };
                match (content, marks, text) {
                    (Some(c), Some(m), Some(x)) => Some(
                        PmTree { ty: t, attrs: opt_field(j, "attrs"@), content: c, marks: m, text: x },
                    ),
                    _ => None,
                }
            },
        }
    }
}

pub open spec fn decode_obj_nodes(a: Seq<Json>) -> Option<Seq<PmTree>>
    decreases a, 0int,
{
    if a.len() == 0 {
        Some(seq![])
    } else {
        match decode_obj_nodes(a.drop_last()) {
            Some(s) => match decode_obj_node(a.last()) {
                Some(n) => Some(s.push(n)),
                None => None,
            },
            None => None,
        }
    }
}


/// A value as serde reads an `Option<Value>` field: `null` is absent.
pub open spec fn non_null(x: Json) -> Option<Json> {
    if x is Null {
        None
    } else {
        Some(x)
    }
}

/// Element `i` of a struct written as an array: absent past its end or when
/// null.
pub open spec fn seq_field(a: Seq<Json>, i: int) -> Option<Json> {
    if 0 <= i < a.len() {
        non_null(a[i])
    } else {
        None
    }
}

/// The fields of a node as serde's derived reader takes them: from an
/// object by name, or from an array by position (type, attrs, content,
/// marks, text). An array holds one to five elements; the type is required
/// and is a string.
pub open spec fn node_fields(j: Json) -> Option<
    (Seq<char>, Option<Json>, Option<Json>, Option<Json>, Option<Json>),
> {
    match j {
        Json::Object(_, _) => match get_str(j, "type"@) {
            Some(t) => Some(
                (
                    t,
                    opt_field(j, "attrs"@),
                    opt_field(j, "content"@),
                    opt_field(j, "marks"@),
                    opt_field(j, "text"@),
                ),
            ),
            None => None,
        },
        Json::Array(a) => if 1 <= a.len() <= 5 && a[0] is Str {
            Some((a[0]->Str_0, seq_field(a, 1), seq_field(a, 2), seq_field(a, 3), seq_field(a, 4)))
        } else {
            None
        },
        _ => None,
    }
}

/// The fields of a mark, from an object by name or from an array of one or
/// two elements by position (type, attrs).
pub open spec fn mark_fields(j: Json) -> Option<(Seq<char>, Option<Json>)> {
    match j {
        Json::Object(_, _) => match get_str(j, "type"@) {
            Some(t) => Some((t, opt_field(j, "attrs"@))),
            None => None,
        },
        Json::Array(a) => if 1 <= a.len() <= 2 && a[0] is Str {
            Some((a[0]->Str_0, seq_field(a, 1)))
        } else {
            None
        },
        _ => None,
    }
}

/// A mark as serde reads it, in either form.
pub open spec fn decode_mark(j: Json) -> Option<MarkTree> {
    match mark_fields(j) {
        Some(f) => Some(MarkTree { ty: f.0, attrs: f.1 }),
        None => None,
    }
}

pub open spec fn decode_marks(a: Seq<Json>) -> Option<Seq<MarkTree>>
    decreases a.len(),
{
    if a.len() == 0 {
        Some(seq![])
    } else {
        match (decode_marks(a.drop_last()), decode_mark(a.last())) {
            (Some(s), Some(m)) => Some(s.push(m)),
            _ => None,
        }
    }
}

pub proof fn lemma_fields_decrease(j: Json)
    ensures
        node_fields(j) matches Some((_, _, Some(Json::Array(ca)), _, _)) ==> decreases_to!(j => ca),
{
    match j {
        Json::Object(_, _) => {
            lemma_get_decreases(j, "content"@);
        },
        Json::Array(a) => {
            if a.len() > 2 {
                assert(decreases_to!(j => a));
                assert(decreases_to!(a => a[2]));
                if let Json::Array(ca) = a[2] {
                    assert(decreases_to!(a[2] => ca));
                }
            }
        },
        _ => {},
    }
}

/// A node as serde's derived reader reads it, in object or array form at
/// every level: a string type; attrs anything; content an array of nodes,
/// marks an array of marks and text a string, each where present and not
/// null.
pub open spec fn decode_node(j: Json) -> Option<PmTree>
    decreases j, 1int,
{
    match node_fields(j) {
        None => None,
        Some(f) => {
            proof {
                lemma_fields_decrease(j);
            }
            let content: Option<Option<Seq<PmTree>>> = match f.2 {
                None => Some(None),
                Some(Json::Array(a)) => match decode_nodes(a) {
                    Some(s) => Some(Some(s)),
                    None => None,
                },
                _ => None,
            };
            let marks: Option<Option<Seq<MarkTree>>> = match f.3 {
                None => Some(None),
                Some(Json::Array(a)) => match decode_marks(a) {
                    Some(s) => Some(Some(s)),
                    None => None,
                },
                _ => None,
            };
            let text: Option<Option<Seq<char>>> = match f.4 {
                None => Some(None),
                Some(Json::Str(s)) => Some(Some(s)),
                _ => None,
            };
            match (content, marks, text) {
                (Some(c), Some(m), Some(x)) => Some(
                    PmTree { ty: f.0, attrs: f.1, content: c, marks: m, text: x },
                ),
                _ => None,
            }
        },
    }
}

pub open spec fn decode_nodes(a: Seq<Json>) -> Option<Seq<PmTree>>
    decreases a, 0int,
{
    if a.len() == 0 {
        Some(seq![])
    } else {
        match decode_nodes(a.drop_last()) {
            Some(s) => match decode_node(a.last()) {
                Some(n) => Some(s.push(n)),
                None => None,
            },
            None => None,
        }
    }
}

// ---------------------------------------------------------------------------
// Rendering
// ---------------------------------------------------------------------------

/// Where a node is rendered: the prefix of the list item it is, the indent
/// of its lines, and whether it is inside a table cell.
pub struct Ctx {
    pub prefix: Option<Seq<char>>,
    pub indent: Seq<char>,
    pub in_cell: bool,
}

pub open spec fn ctx0() -> Ctx {
    Ctx { prefix: None, indent: seq![], in_cell: false }
}

pub open spec fn kids(n: PmTree) -> Seq<PmTree> {
    match n.content {
        Some(c) => c,
        None => seq![],
    }
}

/// The string attribute `k` of a node.
pub open spec fn attr_str(attrs: Option<Json>, k: Seq<char>) -> Option<Seq<char>> {
    match attrs {
        Some(a) => get_str(a, k),
        None => None,
    }
}

pub open spec fn or_default(o: Option<Seq<char>>, d: Seq<char>) -> Seq<char> {
    match o {
        Some(s) => s,
        None => d,
    }
}

pub open spec fn repeat(c: char, n: nat) -> Seq<char> {
    Seq::new(n, |i: int| c)
}

/// A heading's level: its `level` attribute, or 1.
pub open spec fn heading_level(n: PmTree) -> nat {
    match n.attrs {
        Some(a) => match json_get(a, "level"@) {
            Some(l) => match json_u64(l) {
                Some(v) => v as nat,
                None => 1,
            },
            None => 1,
        },
        None => 1,
    }
}

/// Text wrapped by its marks, the first mark innermost.
pub open spec fn apply_marks(text: Seq<char>, marks: Seq<MarkTree>) -> Seq<char>
    decreases marks.len(),
{
    if marks.len() == 0 {
        text
    } else {
        let r = apply_marks(text, marks.drop_last());
        let m = marks.last();
        if m.ty == "strong"@ {
            "**"@ + r + "**"@
        } else if m.ty == "em"@ {
            "*"@ + r + "*"@
        } else if m.ty == "code"@ {
            "`"@ + r + "`"@
        } else if m.ty == "strike"@ {
            "~~"@ + r + "~~"@
        } else if m.ty == "underline"@ {
            "<u>"@ + r + "</u>"@
        } else if m.ty == "link"@ {
            "["@ + r + "]("@ + or_default(attr_str(m.attrs, "href"@), seq![]) + ")"@
        } else {
            r
        }
    }
}

/// A text node whose outermost mark is a link to `h` renders as `[` the
/// text with its other marks `](h)`; with the link its only mark, as
/// `[text](h)`. What comes before stays.
pub proof fn law_link_mark_renders_target(
    out: Seq<char>,
    n: PmTree,
    ctx: Ctx,
    ms: Seq<MarkTree>,
    h: Seq<char>,
)
    requires
        n.ty == "text"@,
        n.marks == Some(ms),
        ms.len() > 0,
        ms.last() == (MarkTree {
            ty: "link"@,
            attrs: Some(Json::Object(seq!["href"@], seq![Json::Str(h)])),
        }),
    ensures
        render(out, n, ctx) == out + "["@ + apply_marks(or_default(n.text, seq![]), ms.drop_last())
            + "]("@ + h + ")"@,
        ms.len() == 1 ==> render(out, n, ctx) == out + "["@ + or_default(n.text, seq![]) + "]("@ + h
            + ")"@,
{
    reveal_strlit("link");
    reveal_strlit("strong");
    reveal_strlit("em");
    reveal_strlit("code");
    reveal_strlit("strike");
    reveal_strlit("underline");
    assert("link"@.len() == 4 && "strong"@.len() == 6 && "em"@.len() == 2);
    assert("link"@ != "strong"@);
    assert("link"@ != "em"@);
    assert("link"@[0] != "code"@[0]);
    assert("link"@ != "code"@);
    assert("link"@ != "strike"@);
    assert("link"@ != "underline"@);
    assert(get_str(Json::Object(seq!["href"@], seq![Json::Str(h)]), "href"@) == Some(h));
    let t = or_default(n.text, seq![]);
    reveal_strlit("text");
    reveal_strlit("doc");
    reveal_strlit("layoutSection");
    reveal_strlit("layoutColumn");
    reveal_strlit("taskList");
    reveal_strlit("paragraph");
    reveal_strlit("heading");
    assert("text"@.len() == 4 && "doc"@.len() == 3 && "layoutSection"@.len() == 13
        && "layoutColumn"@.len() == 12 && "taskList"@.len() == 8 && "paragraph"@.len() == 9
        && "heading"@.len() == 7);
    assert(n.ty != "doc"@ && n.ty != "layoutSection"@ && n.ty != "layoutColumn"@ && n.ty != "taskList"@
        && n.ty != "paragraph"@ && n.ty != "heading"@);
    assert(render(out, n, ctx) == out + apply_marks(t, ms));
    assert(apply_marks(t, ms) == "["@ + apply_marks(t, ms.drop_last()) + "]("@ + h + ")"@);
    if ms.len() == 1 {
        assert(apply_marks(t, ms.drop_last()) == t);
    }
    assert(out + apply_marks(t, ms) =~= out + "["@ + apply_marks(t, ms.drop_last()) + "]("@ + h + ")"@);
}

/// A text node with one mark renders its text wrapped as markdown writes
/// that mark: `**t**` strong, `*t*` emphasis, `` `t` `` code, `~~t~~`
/// strikethrough, `<u>t</u>` underline; a mark of another kind leaves the
/// text as it is.
pub proof fn law_single_mark_wraps_text(out: Seq<char>, n: PmTree, ctx: Ctx, m: MarkTree)
    requires
        n.ty == "text"@,
        n.marks == Some(seq![m]),
    ensures
        ({
            let t = or_default(n.text, seq![]);
            let r = render(out, n, ctx);
            &&& m.ty == "strong"@ ==> r == out + "**"@ + t + "**"@
            &&& m.ty == "em"@ ==> r == out + "*"@ + t + "*"@
            &&& m.ty == "code"@ ==> r == out + "`"@ + t + "`"@
            &&& m.ty == "strike"@ ==> r == out + "~~"@ + t + "~~"@
            &&& m.ty == "underline"@ ==> r == out + "<u>"@ + t + "</u>"@
            &&& (m.ty != "strong"@ && m.ty != "em"@ && m.ty != "code"@ && m.ty != "strike"@ && m.ty
                != "underline"@ && m.ty != "link"@) ==> r == out + t
        }),
{
    let t = or_default(n.text, seq![]);
    reveal_strlit("text");
    reveal_strlit("doc");
    reveal_strlit("layoutSection");
    reveal_strlit("layoutColumn");
    reveal_strlit("taskList");
    reveal_strlit("paragraph");
    reveal_strlit("heading");
    assert("text"@.len() == 4 && "doc"@.len() == 3 && "layoutSection"@.len() == 13
        && "layoutColumn"@.len() == 12 && "taskList"@.len() == 8 && "paragraph"@.len() == 9
        && "heading"@.len() == 7);
    assert(n.ty != "doc"@ && n.ty != "layoutSection"@ && n.ty != "layoutColumn"@ && n.ty != "taskList"@
        && n.ty != "paragraph"@ && n.ty != "heading"@);
    reveal_strlit("strong");
    reveal_strlit("em");
    reveal_strlit("code");
    reveal_strlit("strike");
    reveal_strlit("underline");
    reveal_strlit("link");
    assert("strong"@.len() == 6 && "em"@.len() == 2 && "code"@.len() == 4 && "strike"@.len() == 6
        && "underline"@.len() == 9 && "link"@.len() == 4);
    assert("strong"@[3] != "strike"@[3] && "code"@[0] != "link"@[0]);
    assert("strong"@ != "strike"@ && "code"@ != "link"@);
    let ms = seq![m];
    assert(render(out, n, ctx) == out + apply_marks(t, ms));
    assert(ms.drop_last() =~= Seq::<MarkTree>::empty());
    assert(apply_marks(t, ms.drop_last()) == t);
    assert(ms.last() == m);
    assert(out + ("**"@ + t + "**"@) =~= out + "**"@ + t + "**"@);
    assert(out + ("*"@ + t + "*"@) =~= out + "*"@ + t + "*"@);
    assert(out + ("`"@ + t + "`"@) =~= out + "`"@ + t + "`"@);
    assert(out + ("~~"@ + t + "~~"@) =~= out + "~~"@ + t + "~~"@);
    assert(out + ("<u>"@ + t + "</u>"@) =~= out + "<u>"@ + t + "</u>"@);
}

pub open spec fn list_prefix(ordered: bool, i: int) -> Seq<char> {
    if ordered {
        nat_dec((i + 1) as nat) + ". "@
    } else {
        "- "@
    }
}

/// Lines each written as `indent> line`.
pub open spec fn quote_lines(out: Seq<char>, lines: Seq<Seq<char>>, indent: Seq<char>) -> Seq<char>
    decreases lines.len(),
{
    if lines.len() == 0 {
        out
    } else {
        quote_lines(out, lines.drop_last(), indent) + indent + "> "@ + lines.last() + "\n"@
    }
}

/// The first letter of a panel type as `char::to_uppercase` gives it:
/// Unicode's uppercase mapping, which takes its tables to state.
pub uninterp spec fn uppercase(c: char) -> Seq<char>;

/// `char::to_uppercase`, collected into a string: the uppercase mapping of
/// `c`, named by `uppercase`.
#[verifier::external_body]
fn char_to_uppercase(c: char) -> (r: String)
    ensures
        r@ == uppercase(c),
{
    c.to_uppercase().collect()
}

pub open spec fn capitalized(s: Seq<char>) -> Seq<char> {
    if s.len() == 0 {
        seq![]
    } else {
        uppercase(s[0]) + s.drop_first()
    }
}

/// Lines of a panel: the first one led by the panel's type in bold.
pub open spec fn panel_lines(out: Seq<char>, lines: Seq<Seq<char>>, indent: Seq<char>, ptype: Seq<char>) -> Seq<char>
    decreases lines.len(),
{
    if lines.len() == 0 {
        out
    } else {
        let o = panel_lines(out, lines.drop_last(), indent, ptype);
        let lead = if lines.len() == 1 {
            "**"@ + capitalized(ptype) + ":** "@
        } else {
            seq![]
        };
        o + indent + "> "@ + lead + lines.last() + "\n"@
    }
}

pub open spec fn ends_nl(s: Seq<char>) -> bool {
    s.len() > 0 && s.last() == '\n'
}

/// The text of the children of a code block, in order.
pub open spec fn code_texts(cs: Seq<PmTree>) -> Seq<char>
    decreases cs.len(),
{
    if cs.len() == 0 {
        seq![]
    } else {
        code_texts(cs.drop_last()) + or_default(cs.last().text, seq![])
    }
}

pub open spec fn replace_nl(s: Seq<char>) -> Seq<char> {
    Seq::new(s.len(), |i: int| if s[i] == '\n' { ' ' } else { s[i] })
}

/// `out` with node `n` rendered after it.
pub open spec fn render(out: Seq<char>, n: PmTree, ctx: Ctx) -> Seq<char>
    decreases n, 1int, 0int,
{
    let t = n.ty;
    let len = kids(n).len() as int;
    if t == "doc"@ || t == "layoutSection"@ || t == "layoutColumn"@ || t == "taskList"@ {
        render_kids(out, n, len, ctx)
    } else if t == "paragraph"@ {
        let o = render_kids(out, n, len, ctx);
        if ctx.in_cell {
            o
        } else {
            o + "\n\n"@
        }
    } else if t == "heading"@ {
        let o = out + ctx.indent + repeat('#', heading_level(n)) + " "@;
        render_kids(o, n, len, ctx) + "\n\n"@
    } else if t == "text"@ {
        out + apply_marks(
            or_default(n.text, seq![]),
            match n.marks {
                Some(m) => m,
                None => seq![],
            },
        )
    } else if t == "hardBreak"@ {
        out + "\n"@
    } else if t == "bulletList"@ {
        render_items(out, n, len, ctx, false)
    } else if t == "orderedList"@ {
        render_items(out, n, len, ctx, true)
    } else if t == "listItem"@ {
        let o = out + ctx.indent + or_default(ctx.prefix, "- "@);
        render_item_body(o, n, len, ctx, Ctx { prefix: None, indent: ctx.indent + "  "@, in_cell: ctx.in_cell })
    } else if t == "taskItem"@ {
        let state = or_default(attr_str(n.attrs, "state"@), "TODO"@);
        let o = out + ctx.indent + if state == "DONE"@ {
            "- [x] "@
        } else {
            "- [ ] "@
        };
        render_item_body(o, n, len, ctx, Ctx { prefix: ctx.prefix, indent: ctx.indent + "  "@, in_cell: ctx.in_cell })
    } else if t == "blockquote"@ {
        let inner = render_kids(seq![], n, len, ctx0());
        quote_lines(out, lines_spec(trim_end_spec(inner)), ctx.indent) + "\n"@
    } else if t == "panel"@ {
        let inner = render_kids(seq![], n, len, ctx0());
        panel_lines(
            out,
            lines_spec(trim_end_spec(inner)),
            ctx.indent,
            or_default(attr_str(n.attrs, "panelType"@), "info"@),
        ) + "\n"@
    } else if t == "codeBlock"@ {
        let o = out + ctx.indent + "```"@ + or_default(attr_str(n.attrs, "language"@), seq![])
            + "\n"@ + code_texts(kids(n));
        let o2 = if ends_nl(o) {
            o
        } else {
            o + "\n"@
        };
        o2 + ctx.indent + "```\n\n"@
    } else if t == "rule"@ {
        out + ctx.indent + "---\n\n"@
    } else if t == "table"@ {
        match n.content {
            Some(_) => table_text(out, rows_data(n, len, ctx), ctx.indent),
            None => out,
        }
    } else if t == "mention"@ {
        out + "[["@ + or_default(attr_str(n.attrs, "text"@), "?"@) + "]]"@
    } else if t == "mediaSingle"@ {
        render_kids(out, n, len, ctx) + "\n\n"@
    } else if t == "media"@ {
        out + "![]("@ + or_default(attr_str(n.attrs, "url"@), seq![]) + ")"@
    } else if t == "extension"@ {
        match attr_str(n.attrs, "text"@) {
            Some(x) => out + ctx.indent + "*["@ + x + "]*\n\n"@,
            None => out,
        }
    } else {
        render_kids(out, n, len, ctx)
    }
}

/// The node types that have a rendering of their own; any other node is
/// rendered as its children.
pub open spec fn is_known_type(t: Seq<char>) -> bool {
    ||| t == "doc"@ || t == "layoutSection"@ || t == "layoutColumn"@ || t == "taskList"@
    ||| t == "paragraph"@ || t == "heading"@ || t == "text"@ || t == "hardBreak"@
    ||| t == "bulletList"@ || t == "orderedList"@ || t == "listItem"@ || t == "taskItem"@
    ||| t == "blockquote"@ || t == "panel"@ || t == "codeBlock"@ || t == "rule"@
    ||| t == "table"@ || t == "mention"@ || t == "mediaSingle"@ || t == "media"@
    ||| t == "extension"@
}

/// `out` with the first `k` children of `n` rendered after it.
pub open spec fn render_kids(out: Seq<char>, n: PmTree, k: int, ctx: Ctx) -> Seq<char>
    decreases n, 0int, k,
{
    if k <= 0 || k > kids(n).len() {
        out
    } else {
        render(render_kids(out, n, k - 1, ctx), kids(n)[k - 1], ctx)
    }
}

/// The first `k` items of a list, each with its bullet or number.
pub open spec fn render_items(out: Seq<char>, n: PmTree, k: int, ctx: Ctx, ordered: bool) -> Seq<char>
    decreases n, 0int, k,
{
    if k <= 0 || k > kids(n).len() {
        out
    } else {
        render(
            render_items(out, n, k - 1, ctx, ordered),
            kids(n)[k - 1],
            Ctx { prefix: Some(list_prefix(ordered, k - 1)), indent: ctx.indent, in_cell: ctx.in_cell },
        )
    }
}

/// The first `k` children of a list item: a first paragraph on the item's
/// line, the rest indented.
pub open spec fn render_item_body(out: Seq<char>, n: PmTree, k: int, ctx: Ctx, inner: Ctx) -> Seq<char>
    decreases n, 0int, k,
{
    if k <= 0 || k > kids(n).len() {
        out
    } else {
        let o = render_item_body(out, n, k - 1, ctx, inner);
        let c = kids(n)[k - 1];
        if k == 1 && c.ty == "paragraph"@ {
            render_kids(o, c, kids(c).len() as int, ctx) + "\n"@
        } else {
            render(o, c, inner)
        }
    }
}

/// The text of a table cell: rendered, trimmed, on one line.
pub open spec fn cell_text(cell: PmTree, ctx: Ctx) -> Seq<char>
    decreases cell, 1int, 0int,
{
    let cctx = Ctx { prefix: ctx.prefix, indent: ctx.indent, in_cell: true };
    replace_nl(trim_spec(render_kids(seq![], cell, kids(cell).len() as int, cctx)))
}

/// The texts of the first `k` cells of a row.
pub open spec fn row_cells(row: PmTree, k: int, ctx: Ctx) -> Seq<Seq<char>>
    decreases row, 0int, k,
{
    if k <= 0 || k > kids(row).len() {
        seq![]
    } else {
        row_cells(row, k - 1, ctx).push(cell_text(kids(row)[k - 1], ctx))
    }
}

/// The cell texts of the rows among the first `k` children of a table.
pub open spec fn rows_data(n: PmTree, k: int, ctx: Ctx) -> Seq<Seq<Seq<char>>>
    decreases n, 0int, k,
{
    if k <= 0 || k > kids(n).len() {
        seq![]
    } else {
        let r = kids(n)[k - 1];
        let prev = rows_data(n, k - 1, ctx);
        if r.ty == "tableRow"@ {
            prev.push(row_cells(r, kids(r).len() as int, ctx))
        } else {
            prev
        }
    }
}

/// Views of rows of cell texts.
pub open spec fn rows_view(v: Seq<Vec<String>>) -> Seq<Seq<Seq<char>>> {
    Seq::new(v.len(), |i: int| crate::text::str_views(v[i]@))
}

pub open spec fn max_len(data: Seq<Seq<Seq<char>>>) -> nat
    decreases data.len(),
{
    if data.len() == 0 {
        0
    } else {
        let m = max_len(data.drop_last());
        if data.last().len() > m {
            data.last().len()
        } else {
            m
        }
    }
}

/// The width of column `c`: its widest cell in bytes, and at least 3.
pub open spec fn col_width(data: Seq<Seq<Seq<char>>>, c: int) -> nat
    decreases data.len(),
{
    if data.len() == 0 {
        3
    } else {
        let w = col_width(data.drop_last(), c);
        let row = data.last();
        if 0 <= c < row.len() && byte_len(row[c]) > w {
            byte_len(row[c])
        } else {
            w
        }
    }
}

pub open spec fn cell_at(row: Seq<Seq<char>>, c: int) -> Seq<char> {
    if 0 <= c < row.len() {
        row[c]
    } else {
        seq![]
    }
}

/// The first `k` columns of a row, each padded to its width.
pub open spec fn row_text(data: Seq<Seq<Seq<char>>>, row: Seq<Seq<char>>, k: int) -> Seq<char>
    decreases k,
{
    if k <= 0 {
        seq![]
    } else {
        let cell = cell_at(row, k - 1);
        row_text(data, row, k - 1) + " "@ + cell + repeat(
            ' ',
            (col_width(data, k - 1) - byte_len(cell)) as nat,
        ) + " |"@
    }
}

pub open spec fn sep_text(data: Seq<Seq<Seq<char>>>, k: int) -> Seq<char>
    decreases k,
{
    if k <= 0 {
        seq![]
    } else {
        sep_text(data, k - 1) + " "@ + repeat('-', col_width(data, k - 1)) + " |"@
    }
}

/// The first `r` rows of a table, the separator after the first.
pub open spec fn rows_text(out: Seq<char>, data: Seq<Seq<Seq<char>>>, r: int, indent: Seq<char>) -> Seq<char>
    decreases r,
{
    if r <= 0 || r > data.len() {
        out
    } else {
        let cols = max_len(data) as int;
        let o = rows_text(out, data, r - 1, indent) + indent + "|"@ + row_text(data, data[r - 1], cols)
            + "\n"@;
        if r == 1 {
            o + indent + "|"@ + sep_text(data, cols) + "\n"@
        } else {
            o
        }
    }
}

pub open spec fn table_text(out: Seq<char>, data: Seq<Seq<Seq<char>>>, indent: Seq<char>) -> Seq<char> {
    if data.len() == 0 {
        out
    } else {
        rows_text(out, data, data.len() as int, indent) + "\n"@
    }
}

// ---------------------------------------------------------------------------
// Rendering only appends
// ---------------------------------------------------------------------------

proof fn lemma_quote_appends(out: Seq<char>, lines: Seq<Seq<char>>, indent: Seq<char>)
    ensures
        quote_lines(out, lines, indent) == out + quote_lines(seq![], lines, indent),
    decreases lines.len(),
{
    if lines.len() > 0 {
        lemma_quote_appends(out, lines.drop_last(), indent);
        let q = quote_lines(seq![], lines.drop_last(), indent);
        assert(out + q + indent + "> "@ + lines.last() + "\n"@ =~= out + (q + indent + "> "@ + lines.last()
            + "\n"@));
    } else {
        assert(out + seq![] =~= out);
    }
}

proof fn lemma_panel_appends(out: Seq<char>, lines: Seq<Seq<char>>, indent: Seq<char>, ptype: Seq<char>)
    ensures
        panel_lines(out, lines, indent, ptype) == out + panel_lines(seq![], lines, indent, ptype),
    decreases lines.len(),
{
    if lines.len() > 0 {
        lemma_panel_appends(out, lines.drop_last(), indent, ptype);
        let q = panel_lines(seq![], lines.drop_last(), indent, ptype);
        let lead = if lines.len() == 1 {
            "**"@ + capitalized(ptype) + ":** "@
        } else {
            seq![]
        };
        assert(out + q + indent + "> "@ + lead + lines.last() + "\n"@ =~= out + (q + indent + "> "@ + lead
            + lines.last() + "\n"@));
    } else {
        assert(out + seq![] =~= out);
    }
}

proof fn lemma_rows_appends(out: Seq<char>, data: Seq<Seq<Seq<char>>>, r: int, indent: Seq<char>)
    ensures
        rows_text(out, data, r, indent) == out + rows_text(seq![], data, r, indent),
    decreases r,
{
    if r <= 0 || r > data.len() {
        assert(out + seq![] =~= out);
    } else {
        lemma_rows_appends(out, data, r - 1, indent);
        let cols = max_len(data) as int;
        let q = rows_text(seq![], data, r - 1, indent);
        let line = indent + "|"@ + row_text(data, data[r - 1], cols) + "\n"@;
        let sep = indent + "|"@ + sep_text(data, cols) + "\n"@;
        assert(out + q + indent + "|"@ + row_text(data, data[r - 1], cols) + "\n"@ =~= out + (q + line));
        assert(seq![] + q + indent + "|"@ + row_text(data, data[r - 1], cols) + "\n"@ =~= q + line);
        assert(out + (q + line) + indent + "|"@ + sep_text(data, cols) + "\n"@ =~= out + (q + line + sep));
        assert(q + line + indent + "|"@ + sep_text(data, cols) + "\n"@ =~= q + line + sep);
    }
}

#[verifier::spinoff_prover]
#[verifier::rlimit(60)]
proof fn lemma_render_appends(out: Seq<char>, n: PmTree, ctx: Ctx)
    ensures
        render(out, n, ctx) == out + render(seq![], n, ctx),
    decreases n, 1int, 0int,
{
    let t = n.ty;
    let len = kids(n).len() as int;
    let e: Seq<char> = seq![];
    assert(e + ctx.indent =~= ctx.indent);
    assert(out + e =~= out);
    if t == "doc"@ || t == "layoutSection"@ || t == "layoutColumn"@ || t == "taskList"@ {
        lemma_kids_appends(out, n, len, ctx);
    } else if t == "paragraph"@ {
        lemma_kids_appends(out, n, len, ctx);
        let k = render_kids(e, n, len, ctx);
        assert(out + k + "\n\n"@ =~= out + (k + "\n\n"@));
    } else if t == "heading"@ {
        let h = ctx.indent + repeat('#', heading_level(n)) + " "@;
        assert(out + ctx.indent + repeat('#', heading_level(n)) + " "@ =~= out + h);
        assert(e + ctx.indent + repeat('#', heading_level(n)) + " "@ =~= h);
        lemma_kids_appends(out + h, n, len, ctx);
        lemma_kids_appends(h, n, len, ctx);
        let k = render_kids(e, n, len, ctx);
        assert(out + h + k + "\n\n"@ =~= out + (h + k + "\n\n"@));
    } else if t == "text"@ {
        let x = apply_marks(
            or_default(n.text, seq![]),
            match n.marks {
                Some(m) => m,
                None => seq![],
            },
        );
        assert(e + x =~= x);
    } else if t == "hardBreak"@ {
        assert(e + "\n"@ =~= "\n"@);
    } else if t == "bulletList"@ {
        lemma_items_appends(out, n, len, ctx, false);
    } else if t == "orderedList"@ {
        lemma_items_appends(out, n, len, ctx, true);
    } else if t == "listItem"@ {
        let inner = Ctx { prefix: None, indent: ctx.indent + "  "@, in_cell: ctx.in_cell };
        let b = ctx.indent + or_default(ctx.prefix, "- "@);
        assert(out + ctx.indent + or_default(ctx.prefix, "- "@) =~= out + b);
        assert(e + ctx.indent + or_default(ctx.prefix, "- "@) =~= b);
        lemma_body_appends(out + b, n, len, ctx, inner);
        lemma_body_appends(b, n, len, ctx, inner);
        assert(out + b + render_item_body(e, n, len, ctx, inner) =~= out + (b + render_item_body(
            e,
            n,
            len,
            ctx,
            inner,
        )));
    } else if t == "taskItem"@ {
        let state = or_default(attr_str(n.attrs, "state"@), "TODO"@);
        let box_ = if state == "DONE"@ {
            "- [x] "@
        } else {
            "- [ ] "@
        };
        let inner = Ctx { prefix: ctx.prefix, indent: ctx.indent + "  "@, in_cell: ctx.in_cell };
        let b = ctx.indent + box_;
        assert(out + ctx.indent + box_ =~= out + b);
        assert(e + ctx.indent + box_ =~= b);
        lemma_body_appends(out + b, n, len, ctx, inner);
        lemma_body_appends(b, n, len, ctx, inner);
        assert(out + b + render_item_body(e, n, len, ctx, inner) =~= out + (b + render_item_body(
            e,
            n,
            len,
            ctx,
            inner,
        )));
    } else if t == "blockquote"@ {
        let ls = lines_spec(trim_end_spec(render_kids(e, n, len, ctx0())));
        lemma_quote_appends(out, ls, ctx.indent);
        let q = quote_lines(e, ls, ctx.indent);
        assert(out + q + "\n"@ =~= out + (q + "\n"@));
    } else if t == "panel"@ {
        let ls = lines_spec(trim_end_spec(render_kids(e, n, len, ctx0())));
        let pt = or_default(attr_str(n.attrs, "panelType"@), "info"@);
        lemma_panel_appends(out, ls, ctx.indent, pt);
        let q = panel_lines(e, ls, ctx.indent, pt);
        assert(out + q + "\n"@ =~= out + (q + "\n"@));
    } else if t == "codeBlock"@ {
        let x = ctx.indent + "```"@ + or_default(attr_str(n.attrs, "language"@), seq![]) + "\n"@
            + code_texts(kids(n));
        assert(out + ctx.indent + "```"@ + or_default(attr_str(n.attrs, "language"@), seq![]) + "\n"@
            + code_texts(kids(n)) =~= out + x);
        assert(e + ctx.indent + "```"@ + or_default(attr_str(n.attrs, "language"@), seq![]) + "\n"@
            + code_texts(kids(n)) =~= x);
        let o = out + x;
        assert(x.len() > 0) by {
            reveal_strlit("```");
        }
        assert(o.last() == x.last());
        assert(ends_nl(o) == ends_nl(x));
        let x2 = if ends_nl(x) {
            x
        } else {
            x + "\n"@
        };
        assert((if ends_nl(o) {
            o
        } else {
            o + "\n"@
        }) =~= out + x2);
        assert(out + x2 + ctx.indent + "```\n\n"@ =~= out + (x2 + ctx.indent + "```\n\n"@));
    } else if t == "table"@ {
        match n.content {
            Some(_) => {
                let data = rows_data(n, len, ctx);
                if data.len() > 0 {
                    lemma_rows_appends(out, data, data.len() as int, ctx.indent);
                    let q = rows_text(e, data, data.len() as int, ctx.indent);
                    assert(out + q + "\n"@ =~= out + (q + "\n"@));
                }
            },
            None => {},
        }
    } else if t == "rule"@ {
        assert(out + ctx.indent + "---\n\n"@ =~= out + (e + ctx.indent + "---\n\n"@));
    } else if t == "mention"@ {
        let x = "[["@ + or_default(attr_str(n.attrs, "text"@), "?"@) + "]]"@;
        assert(out + "[["@ + or_default(attr_str(n.attrs, "text"@), "?"@) + "]]"@ =~= out + x);
        assert(e + "[["@ + or_default(attr_str(n.attrs, "text"@), "?"@) + "]]"@ =~= x);
    } else if t == "mediaSingle"@ {
        lemma_kids_appends(out, n, len, ctx);
        let k = render_kids(e, n, len, ctx);
        assert(out + k + "\n\n"@ =~= out + (k + "\n\n"@));
    } else if t == "media"@ {
        let x = "![]("@ + or_default(attr_str(n.attrs, "url"@), seq![]) + ")"@;
        assert(out + "![]("@ + or_default(attr_str(n.attrs, "url"@), seq![]) + ")"@ =~= out + x);
        assert(e + "![]("@ + or_default(attr_str(n.attrs, "url"@), seq![]) + ")"@ =~= x);
    } else if t == "extension"@ {
        match attr_str(n.attrs, "text"@) {
            Some(x) => {
                assert(out + ctx.indent + "*["@ + x + "]*\n\n"@ =~= out + (e + ctx.indent + "*["@ + x
                    + "]*\n\n"@));
            },
            None => {},
        }
    } else {
        lemma_kids_appends(out, n, len, ctx);
    }
}

proof fn lemma_kids_appends(out: Seq<char>, n: PmTree, k: int, ctx: Ctx)
    ensures
        render_kids(out, n, k, ctx) == out + render_kids(seq![], n, k, ctx),
    decreases n, 0int, k,
{
    if k <= 0 || k > kids(n).len() {
        assert(out + seq![] =~= out);
    } else {
        lemma_kids_appends(out, n, k - 1, ctx);
        let c = kids(n)[k - 1];
        let q = render_kids(seq![], n, k - 1, ctx);
        lemma_render_appends(out + q, c, ctx);
        lemma_render_appends(q, c, ctx);
        assert(out + q + render(seq![], c, ctx) =~= out + (q + render(seq![], c, ctx)));
    }
}

proof fn lemma_items_appends(out: Seq<char>, n: PmTree, k: int, ctx: Ctx, ordered: bool)
    ensures
        render_items(out, n, k, ctx, ordered) == out + render_items(seq![], n, k, ctx, ordered),
    decreases n, 0int, k,
{
    if k <= 0 || k > kids(n).len() {
        assert(out + seq![] =~= out);
    } else {
        lemma_items_appends(out, n, k - 1, ctx, ordered);
        let c = kids(n)[k - 1];
        let cx = Ctx { prefix: Some(list_prefix(ordered, k - 1)), indent: ctx.indent, in_cell: ctx.in_cell };
        let q = render_items(seq![], n, k - 1, ctx, ordered);
        lemma_render_appends(out + q, c, cx);
        lemma_render_appends(q, c, cx);
        assert(out + q + render(seq![], c, cx) =~= out + (q + render(seq![], c, cx)));
    }
}

proof fn lemma_body_appends(out: Seq<char>, n: PmTree, k: int, ctx: Ctx, inner: Ctx)
    ensures
        render_item_body(out, n, k, ctx, inner) == out + render_item_body(seq![], n, k, ctx, inner),
    decreases n, 0int, k,
{
    if k <= 0 || k > kids(n).len() {
        assert(out + seq![] =~= out);
    } else {
        lemma_body_appends(out, n, k - 1, ctx, inner);
        let c = kids(n)[k - 1];
        let q = render_item_body(seq![], n, k - 1, ctx, inner);
        if k == 1 && c.ty == "paragraph"@ {
            let m = kids(c).len() as int;
            lemma_kids_appends(out + q, c, m, ctx);
            lemma_kids_appends(q, c, m, ctx);
            let r = render_kids(seq![], c, m, ctx);
            assert(out + q + r + "\n"@ =~= out + (q + r + "\n"@));
        } else {
            lemma_render_appends(out + q, c, inner);
            lemma_render_appends(q, c, inner);
            assert(out + q + render(seq![], c, inner) =~= out + (q + render(seq![], c, inner)));
        }
    }
}

/// Rendering a node only appends to what was written before it: what it
/// appends does not depend on what is already there.
pub proof fn law_render_appends(out: Seq<char>, n: PmTree, ctx: Ctx)
    ensures
        render(out, n, ctx) == out + render(seq![], n, ctx),
{
    lemma_render_appends(out, n, ctx);
}

/// What the first `k` children of `n` render to, each on its own, one
/// after the other.
pub open spec fn kids_text(n: PmTree, k: int, ctx: Ctx) -> Seq<char>
    decreases k,
{
    if k <= 0 || k > kids(n).len() {
        seq![]
    } else {
        kids_text(n, k - 1, ctx) + render(seq![], kids(n)[k - 1], ctx)
    }
}

proof fn lemma_kids_text(out: Seq<char>, n: PmTree, k: int, ctx: Ctx)
    ensures
        render_kids(out, n, k, ctx) == out + kids_text(n, k, ctx),
    decreases k,
{
    if k <= 0 || k > kids(n).len() {
        assert(out + seq![] =~= out);
    } else {
        lemma_kids_text(out, n, k - 1, ctx);
        let c = kids(n)[k - 1];
        let q = kids_text(n, k - 1, ctx);
        lemma_render_appends(out + q, c, ctx);
        assert(out + q + render(seq![], c, ctx) =~= out + (q + render(seq![], c, ctx)));
    }
}

/// A node of a type that has no rendering of its own appends exactly what
/// each of its children appends, one after the other in order, and nothing
/// when it has none.
pub proof fn law_unknown_node_renders_children(out: Seq<char>, n: PmTree, ctx: Ctx)
    requires
        !is_known_type(n.ty),
    ensures
        render(out, n, ctx) == out + kids_text(n, kids(n).len() as int, ctx),
        kids(n).len() == 0 ==> render(out, n, ctx) == out,
{
    lemma_kids_text(out, n, kids(n).len() as int, ctx);
}

/// The markdown of a ProseMirror value: empty when the value is no node.
pub open spec fn to_markdown_spec(j: Json) -> Seq<char> {
    match decode_node(j) {
        Some(n) => trim_end_spec(render(seq![], n, ctx0())),
        None => seq![],
    }
}


// ---------------------------------------------------------------------------
// Reading nodes: executable
// ---------------------------------------------------------------------------

pub fn find_entry(es: &Vec<(String, JsonValue)>, k: &str) -> (r: usize)
    ensures
        r == key_index(ekeys(es@), k@, 0),
        r <= es.len(),
{
    let ghost ks = ekeys(es@);
    proof { lemma_key_index(ks, k@, 0); }
    let mut i: usize = 0;
    while i < es.len()
        invariant
            i <= es.len(),
            ks == ekeys(es@),
            key_index(ks, k@, 0) == key_index(ks, k@, i as int),
        decreases es.len() - i,
    {
        if crate::text::str_eq(es[i].0.as_str(), k) {
            return i;
        }
        i = i + 1;
    }
    i
}

proof fn lemma_decode_nodes_index(a: Seq<Json>)
    requires
        decode_obj_nodes(a) is Some,
    ensures
        decode_obj_nodes(a)->0.len() == a.len(),
        forall|i: int| 0 <= i < a.len() ==> decode_obj_node(#[trigger] a[i]) == Some(decode_obj_nodes(a)->0[i]),
    decreases a.len(),
{
    if a.len() > 0 {
        lemma_decode_nodes_index(a.drop_last());
        assert forall|i: int| 0 <= i < a.len() implies decode_obj_node(#[trigger] a[i]) == Some(
            decode_obj_nodes(a)->0[i],
        ) by {
            if i < a.len() - 1 {
                assert(a.drop_last()[i] == a[i]);
            }
        }
    }
}

proof fn lemma_decode_marks_index(a: Seq<Json>)
    requires
        decode_obj_marks(a) is Some,
    ensures
        decode_obj_marks(a)->0.len() == a.len(),
        forall|i: int| 0 <= i < a.len() ==> decode_obj_mark(#[trigger] a[i]) == Some(decode_obj_marks(a)->0[i]),
    decreases a.len(),
{
    if a.len() > 0 {
        lemma_decode_marks_index(a.drop_last());
        assert forall|i: int| 0 <= i < a.len() implies decode_obj_mark(#[trigger] a[i]) == Some(
            decode_obj_marks(a)->0[i],
        ) by {
            if i < a.len() - 1 {
                assert(a.drop_last()[i] == a[i]);
            }
        }
    }
}

/// The children array of a node that reads.
fn content_of(j: &JsonValue) -> (r: Option<&Vec<JsonValue>>)
    requires
        decode_obj_node(j@) is Some,
    ensures
        r is Some <==> decode_obj_node(j@)->0.content is Some,
        r matches Some(a) ==> decreases_to!(*j => *a) && decode_obj_nodes(
            crate::prosemirror::from_markdown::jsons(a@),
        ) == decode_obj_node(j@)->0.content,
{
    match j {
        JsonValue::Object(es) => {
            proof {
                lemma_object_view(*es);
            }
            let ci = find_entry(es, "content");
            if ci == es.len() {
                return None;
            }
            assert(crate::json::evals(es@)[ci as int] == es@[ci as int].1@);
            match &es[ci].1 {
                JsonValue::Array(a) => {
                    proof {
                        crate::prosemirror::from_markdown::lemma_array_view(*a);
                        vstd::std_specs::vec::axiom_vec_index_decreases(*es, ci as int);
                        assert(decreases_to!(es[ci as int].1 => es[ci as int].1->Array_0));
                        assert(es[ci as int].1->Array_0 == *a);
                        assert(decreases_to!(*j => *a));
                    }
                    Some(a)
                },
                _ => None,
            }
        },
        _ => None,
    }
}

/// The string attribute `k` of a node that reads.
fn attr_str_exec(j: &JsonValue, k: &str) -> (r: Option<String>)
    requires
        decode_obj_node(j@) is Some,
    ensures
        crate::json::opt_str(r) == attr_str(decode_obj_node(j@)->0.attrs, k@),
{
    match j.get("attrs") {
        Some(JsonValue::Null) => None,
        Some(a) => match a.get_str(k) {
            Some(s) => Some(s.clone()),
            None => None,
        },
        None => None,
    }
}

fn or_default_exec(o: Option<String>, d: &str) -> (r: String)
    ensures
        r@ == or_default(crate::json::opt_str(o), d@),
{
    match o {
        Some(s) => s,
        None => crate::text::copy_str(d),
    }
}

// ---------------------------------------------------------------------------
// Rendering: executable
// ---------------------------------------------------------------------------

/// Where a node is rendered.
#[derive(Debug, Clone)]
pub struct Context {
    pub list_prefix: Option<String>,
    pub indent: String,
    pub in_table_cell: bool,
}

impl Context {
    pub open spec fn model(&self) -> Ctx {
        Ctx {
            prefix: crate::json::opt_str(self.list_prefix),
            indent: self.indent@,
            in_cell: self.in_table_cell,
        }
    }

    pub fn default_ctx() -> (c: Context)
        ensures
            c.model() == ctx0(),
    {
        Context { list_prefix: None, indent: String::new(), in_table_cell: false }
    }

    fn copy(&self) -> (c: Context)
        ensures
            c.model() == self.model(),
    {
        Context {
            list_prefix: crate::text::clone_opt_string(&self.list_prefix),
            indent: self.indent.clone(),
            in_table_cell: self.in_table_cell,
        }
    }
}

fn push_repeat(out: &mut String, c: char, n: u64)
    ensures
        final(out)@ == old(out)@ + repeat(c, n as nat),
{
    let mut k: u64 = 0;
    while k < n
        invariant
            k <= n,
            out@ == old(out)@ + repeat(c, k as nat),
        decreases n - k,
    {
        out.push(c);
        assert(repeat(c, (k + 1) as nat) =~= repeat(c, k as nat).push(c));
        k = k + 1;
    }
}

fn ends_with_nl(s: &String) -> (b: bool)
    ensures
        b == ends_nl(s@),
{
    let cs = crate::text::chars_of(s.as_str());
    cs.len() > 0 && cs[cs.len() - 1] == '\n'
}

fn heading_level_exec(j: &JsonValue) -> (r: u64)
    requires
        decode_obj_node(j@) is Some,
    ensures
        r as nat == heading_level(decode_obj_node(j@)->0),
{
    match j.get("attrs") {
        Some(JsonValue::Null) => 1,
        Some(a) => match a.get("level") {
            Some(l) => match l.as_u64() {
                Some(v) => v,
                None => 1,
            },
            None => 1,
        },
        None => 1,
    }
}

fn apply_marks_exec(text: String, j: &JsonValue) -> (r: String)
    requires
        decode_obj_node(j@) is Some,
    ensures
        r@ == apply_marks(
            text@,
            match decode_obj_node(j@)->0.marks {
                Some(m) => m,
                None => seq![],
            },
        ),
{
    let ms = match j.get("marks") {
        Some(JsonValue::Array(a)) => a,
        _ => {
            return text;
        },
    };
    proof {
        crate::prosemirror::from_markdown::lemma_array_view(*ms);
    }
    let ghost av = crate::prosemirror::from_markdown::jsons(ms@);
    let ghost mt = decode_obj_marks(av)->0;
    proof {
        lemma_decode_marks_index(av);
    }
    let mut r = text;
    let mut i: usize = 0;
    assert(mt.take(0) =~= Seq::<MarkTree>::empty());
    while i < ms.len()
        invariant
            i <= ms.len(),
            av == crate::prosemirror::from_markdown::jsons(ms@),
            mt.len() == av.len(),
            forall|k: int| 0 <= k < av.len() ==> decode_obj_mark(#[trigger] av[k]) == Some(mt[k]),
            r@ == apply_marks(text@, mt.take(i as int)),
        decreases ms.len() - i,
    {
        let m = &ms[i];
        assert(av[i as int] == m@);
        let ghost mk = mt[i as int];
        assert(mt.take(i + 1).drop_last() =~= mt.take(i as int));
        assert(mt.take(i + 1).last() == mk);
        let t = m.get_str("type").unwrap();
        let mut w = String::new();
        if crate::text::str_eq(t.as_str(), "strong") {
            w.push_str("**");
            w.push_str(r.as_str());
            w.push_str("**");
        } else if crate::text::str_eq(t.as_str(), "em") {
            w.push_str("*");
            w.push_str(r.as_str());
            w.push_str("*");
        } else if crate::text::str_eq(t.as_str(), "code") {
            w.push_str("`");
            w.push_str(r.as_str());
            w.push_str("`");
        } else if crate::text::str_eq(t.as_str(), "strike") {
            w.push_str("~~");
            w.push_str(r.as_str());
            w.push_str("~~");
        } else if crate::text::str_eq(t.as_str(), "underline") {
            w.push_str("<u>");
            w.push_str(r.as_str());
            w.push_str("</u>");
        } else if crate::text::str_eq(t.as_str(), "link") {
            let href = match m.get("attrs") {
                Some(JsonValue::Null) => String::new(),
                Some(a) => match a.get_str("href") {
                    Some(h) => h.clone(),
                    None => String::new(),
                },
                None => String::new(),
            };
            w.push_str("[");
            w.push_str(r.as_str());
            w.push_str("](");
            w.push_str(href.as_str());
            w.push_str(")");
        } else {
            w = r;
        }
        r = w;
        i = i + 1;
    }
    assert(mt.take(ms.len() as int) =~= mt);
    r
}

/// Renders node `j` after `out`.
fn render_node(j: &JsonValue, out: &mut String, ctx: &Context)
    requires
        decode_obj_node(j@) is Some,
    ensures
        final(out)@ == render(old(out)@, decode_obj_node(j@)->0, ctx.model()),
    decreases j, 1int,
{
    let ghost n = decode_obj_node(j@)->0;
    let ghost len = kids(n).len() as int;
    let ghost o_start = out@;
    proof {
        reveal_strlit("");
    }
    let t = j.get_str("type").unwrap();
    let t = t.as_str();
    assert(n.ty == t@);
    if crate::text::str_eq(t, "doc") || crate::text::str_eq(t, "layoutSection")
        || crate::text::str_eq(t, "layoutColumn") || crate::text::str_eq(t, "taskList") {
        render_kids_exec(j, out, ctx);
    } else if crate::text::str_eq(t, "paragraph") {
        render_kids_exec(j, out, ctx);
        if !ctx.in_table_cell {
            out.push_str("\n\n");
        }
    } else if crate::text::str_eq(t, "heading") {
        let level = heading_level_exec(j);
        out.push_str(ctx.indent.as_str());
        push_repeat(out, '#', level);
        out.push_str(" ");
        render_kids_exec(j, out, ctx);
        out.push_str("\n\n");
    } else if crate::text::str_eq(t, "text") {
        let text = match j.get("text") {
            Some(JsonValue::Str(s)) => s.clone(),
            _ => String::new(),
        };
        let w = apply_marks_exec(text, j);
        out.push_str(w.as_str());
    } else if crate::text::str_eq(t, "hardBreak") {
        out.push_str("\n");
    } else if crate::text::str_eq(t, "bulletList") {
        render_items_exec(j, out, ctx, false);
    } else if crate::text::str_eq(t, "orderedList") {
        render_items_exec(j, out, ctx, true);
    } else if crate::text::str_eq(t, "listItem") {
        let prefix = match &ctx.list_prefix {
            Some(p) => p.clone(),
            None => crate::text::copy_str("- "),
        };
        out.push_str(ctx.indent.as_str());
        out.push_str(prefix.as_str());
        let inner = Context {
            list_prefix: None,
            indent: crate::text::cat(ctx.indent.as_str(), "  "),
            in_table_cell: ctx.in_table_cell,
        };
        render_item_body_exec(j, out, ctx, &inner);
    } else if crate::text::str_eq(t, "taskItem") {
        let state = or_default_exec(attr_str_exec(j, "state"), "TODO");
        out.push_str(ctx.indent.as_str());
        if crate::text::str_eq(state.as_str(), "DONE") {
            out.push_str("- [x] ");
        } else {
            out.push_str("- [ ] ");
        }
        let inner = Context {
            list_prefix: crate::text::clone_opt_string(&ctx.list_prefix),
            indent: crate::text::cat(ctx.indent.as_str(), "  "),
            in_table_cell: ctx.in_table_cell,
        };
        render_item_body_exec(j, out, ctx, &inner);
    } else if crate::text::str_eq(t, "blockquote") || crate::text::str_eq(t, "panel") {
        let mut inner = String::new();
        let dctx = Context::default_ctx();
        render_kids_exec(j, &mut inner, &dctx);
        assert(inner@ == render_kids(seq![], n, len, ctx0()));
        let ic = crate::text::chars_of(inner.as_str());
        let trimmed = crate::text::trim_end_chars(&ic);
        let lines = crate::text::lines_of(&trimmed);
        let is_panel = !crate::text::str_eq(t, "blockquote");
        let ptype = or_default_exec(attr_str_exec(j, "panelType"), "info");
        let ghost o0 = out@;
        let ghost ls = lines_spec(trim_end_spec(inner@));
        let mut i: usize = 0;
        assert(ls.take(0) =~= Seq::<Seq<char>>::empty());
        while i < lines.len()
            invariant
                i <= lines.len(),
                lines.len() == ls.len(),
                forall|k: int| 0 <= k < lines.len() ==> #[trigger] lines[k]@ == ls[k],
                is_panel ==> out@ == panel_lines(o0, ls.take(i as int), ctx.indent@, ptype@),
                !is_panel ==> out@ == quote_lines(o0, ls.take(i as int), ctx.indent@),
            decreases lines.len() - i,
        {
            assert(ls.take(i + 1).drop_last() =~= ls.take(i as int));
            assert(ls.take(i + 1).last() == lines[i as int]@);
            out.push_str(ctx.indent.as_str());
            out.push_str("> ");
            if is_panel && i == 0 {
                out.push_str("**");
                let pc = crate::text::chars_of(ptype.as_str());
                if pc.len() > 0 {
                    let up = char_to_uppercase(pc[0]);
                    out.push_str(up.as_str());
                    let rest = crate::text::string_of_range(&pc, 1, pc.len());
                    assert(rest@ =~= ptype@.drop_first());
                    out.push_str(rest.as_str());
                }
                out.push_str(":** ");
            }
            let line = crate::text::string_of(&lines[i]);
            out.push_str(line.as_str());
            out.push_str("\n");
            i = i + 1;
        }
        assert(ls.take(lines.len() as int) =~= ls);
        assert(o0 == o_start);
        assert(is_panel ==> out@ == panel_lines(o0, ls, ctx.indent@, ptype@));
        assert(!is_panel ==> out@ == quote_lines(o0, ls, ctx.indent@));
        assert(ls == lines_spec(trim_end_spec(render_kids(seq![], n, len, ctx0()))));
        assert(is_panel ==> ptype@ == or_default(attr_str(n.attrs, "panelType"@), "info"@));
        out.push_str("\n");
    } else if crate::text::str_eq(t, "codeBlock") {
        let lang = or_default_exec(attr_str_exec(j, "language"), "");
        out.push_str(ctx.indent.as_str());
        out.push_str("```");
        out.push_str(lang.as_str());
        out.push_str("\n");
        push_code_texts(j, out);
        if !ends_with_nl(out) {
            out.push_str("\n");
        }
        out.push_str(ctx.indent.as_str());
        out.push_str("```\n\n");
    } else if crate::text::str_eq(t, "rule") {
        out.push_str(ctx.indent.as_str());
        out.push_str("---\n\n");
    } else if crate::text::str_eq(t, "table") {
        if content_of(j).is_some() {
            let data = rows_data_exec(j, ctx);
            table_text_exec(out, &data, ctx.indent.as_str());
        }
    } else if crate::text::str_eq(t, "mention") {
        let text = or_default_exec(attr_str_exec(j, "text"), "?");
        out.push_str("[[");
        out.push_str(text.as_str());
        out.push_str("]]");
    } else if crate::text::str_eq(t, "mediaSingle") {
        render_kids_exec(j, out, ctx);
        out.push_str("\n\n");
    } else if crate::text::str_eq(t, "media") {
        let url = or_default_exec(attr_str_exec(j, "url"), "");
        out.push_str("![](");
        out.push_str(url.as_str());
        out.push_str(")");
    } else if crate::text::str_eq(t, "extension") {
        match attr_str_exec(j, "text") {
            Some(x) => {
                out.push_str(ctx.indent.as_str());
                out.push_str("*[");
                out.push_str(x.as_str());
                out.push_str("]*\n\n");
            },
            None => {},
        }
    } else {
        render_kids_exec(j, out, ctx);
    }
}

/// Renders all children of `j`, in order.
fn render_kids_exec(j: &JsonValue, out: &mut String, ctx: &Context)
    requires
        decode_obj_node(j@) is Some,
    ensures
        final(out)@ == render_kids(
            old(out)@,
            decode_obj_node(j@)->0,
            kids(decode_obj_node(j@)->0).len() as int,
            ctx.model(),
        ),
    decreases j, 0int,
{
    let ghost n = decode_obj_node(j@)->0;
    let ghost o0 = out@;
    match content_of(j) {
        None => {},
        Some(a) => {
            let ghost av = crate::prosemirror::from_markdown::jsons(a@);
            proof {
                lemma_decode_nodes_index(av);
            }
            let mut i: usize = 0;
            while i < a.len()
                invariant
                    i <= a.len(),
                    av == crate::prosemirror::from_markdown::jsons(a@),
                    decode_obj_nodes(av) == n.content,
                    kids(n) == decode_obj_nodes(av)->0,
                    kids(n).len() == av.len(),
                    forall|k: int| 0 <= k < av.len() ==> decode_obj_node(#[trigger] av[k]) == Some(kids(n)[k]),
                    decreases_to!(*j => *a),
                    out@ == render_kids(o0, n, i as int, ctx.model()),
                decreases a.len() - i,
            {
                assert(av[i as int] == a@[i as int]@);
                proof {
                    vstd::std_specs::vec::axiom_vec_index_decreases(*a, i as int);
                }
                render_node(&a[i], out, ctx);
                i = i + 1;
            }
        },
    }
}

/// Renders the items of a list, each with its bullet or number.
fn render_items_exec(j: &JsonValue, out: &mut String, ctx: &Context, ordered: bool)
    requires
        decode_obj_node(j@) is Some,
    ensures
        final(out)@ == render_items(
            old(out)@,
            decode_obj_node(j@)->0,
            kids(decode_obj_node(j@)->0).len() as int,
            ctx.model(),
            ordered,
        ),
    decreases j, 0int,
{
    let ghost n = decode_obj_node(j@)->0;
    let ghost o0 = out@;
    match content_of(j) {
        None => {},
        Some(a) => {
            let ghost av = crate::prosemirror::from_markdown::jsons(a@);
            proof {
                lemma_decode_nodes_index(av);
            }
            let mut i: usize = 0;
            while i < a.len()
                invariant
                    i <= a.len(),
                    av == crate::prosemirror::from_markdown::jsons(a@),
                    decode_obj_nodes(av) == n.content,
                    kids(n) == decode_obj_nodes(av)->0,
                    kids(n).len() == av.len(),
                    forall|k: int| 0 <= k < av.len() ==> decode_obj_node(#[trigger] av[k]) == Some(kids(n)[k]),
                    decreases_to!(*j => *a),
                    out@ == render_items(o0, n, i as int, ctx.model(), ordered),
                decreases a.len() - i,
            {
                assert(av[i as int] == a@[i as int]@);
                proof {
                    vstd::std_specs::vec::axiom_vec_index_decreases(*a, i as int);
                }
                let prefix = if ordered {
                    let num = crate::text::usize_to_string(i + 1);
                    crate::text::cat(num.as_str(), ". ")
                } else {
                    crate::text::copy_str("- ")
                };
                let item_ctx = Context {
                    list_prefix: Some(prefix),
                    indent: ctx.indent.clone(),
                    in_table_cell: ctx.in_table_cell,
                };
                render_node(&a[i], out, &item_ctx);
                i = i + 1;
            }
        },
    }
}

/// Renders the children of a list item: a first paragraph on the item's
/// line, the rest with the inner context.
fn render_item_body_exec(j: &JsonValue, out: &mut String, ctx: &Context, inner: &Context)
    requires
        decode_obj_node(j@) is Some,
    ensures
        final(out)@ == render_item_body(
            old(out)@,
            decode_obj_node(j@)->0,
            kids(decode_obj_node(j@)->0).len() as int,
            ctx.model(),
            inner.model(),
        ),
    decreases j, 0int,
{
    let ghost n = decode_obj_node(j@)->0;
    let ghost o0 = out@;
    match content_of(j) {
        None => {},
        Some(a) => {
            let ghost av = crate::prosemirror::from_markdown::jsons(a@);
            proof {
                lemma_decode_nodes_index(av);
            }
            let mut i: usize = 0;
            while i < a.len()
                invariant
                    i <= a.len(),
                    av == crate::prosemirror::from_markdown::jsons(a@),
                    decode_obj_nodes(av) == n.content,
                    kids(n) == decode_obj_nodes(av)->0,
                    kids(n).len() == av.len(),
                    forall|k: int| 0 <= k < av.len() ==> decode_obj_node(#[trigger] av[k]) == Some(kids(n)[k]),
                    decreases_to!(*j => *a),
                    out@ == render_item_body(o0, n, i as int, ctx.model(), inner.model()),
                decreases a.len() - i,
            {
                assert(av[i as int] == a@[i as int]@);
                proof {
                    vstd::std_specs::vec::axiom_vec_index_decreases(*a, i as int);
                }
                let c = &a[i];
                let is_para = i == 0 && crate::text::str_eq(c.get_str("type").unwrap().as_str(), "paragraph");
                if is_para {
                    render_kids_exec(c, out, ctx);
                    out.push_str("\n");
                } else {
                    render_node(c, out, inner);
                }
                i = i + 1;
            }
        },
    }
}

/// Appends the texts of the children of a code block.
fn push_code_texts(j: &JsonValue, out: &mut String)
    requires
        decode_obj_node(j@) is Some,
    ensures
        final(out)@ == old(out)@ + code_texts(kids(decode_obj_node(j@)->0)),
{
    let ghost n = decode_obj_node(j@)->0;
    let ghost o0 = out@;
    match content_of(j) {
        None => {
            assert(code_texts(kids(n)) =~= Seq::<char>::empty());
        },
        Some(a) => {
            let ghost av = crate::prosemirror::from_markdown::jsons(a@);
            proof {
                lemma_decode_nodes_index(av);
            }
            let ghost ks = kids(n);
            let mut i: usize = 0;
            assert(ks.take(0) =~= Seq::<PmTree>::empty());
            assert(o0 + code_texts(ks.take(0)) =~= o0);
            while i < a.len()
                invariant
                    i <= a.len(),
                    av == crate::prosemirror::from_markdown::jsons(a@),
                    ks == decode_obj_nodes(av)->0,
                    ks.len() == av.len(),
                    forall|k: int| 0 <= k < av.len() ==> decode_obj_node(#[trigger] av[k]) == Some(ks[k]),
                    out@ == o0 + code_texts(ks.take(i as int)),
                decreases a.len() - i,
            {
                assert(av[i as int] == a@[i as int]@);
                assert(ks.take(i + 1).drop_last() =~= ks.take(i as int));
                let ghost before = out@;
                match a[i].get("text") {
                    Some(JsonValue::Str(t)) => {
                        out.push_str(t.as_str());
                    },
                    _ => {},
                }
                assert(out@ =~= o0 + code_texts(ks.take(i + 1)));
                i = i + 1;
            }
            assert(ks.take(a.len() as int) =~= ks);
        },
    }
}

/// The text of a table cell.
fn cell_text_exec(c: &JsonValue, ctx: &Context) -> (r: String)
    requires
        decode_obj_node(c@) is Some,
    ensures
        r@ == cell_text(decode_obj_node(c@)->0, ctx.model()),
    decreases c, 1int,
{
    let cctx = Context {
        list_prefix: crate::text::clone_opt_string(&ctx.list_prefix),
        indent: ctx.indent.clone(),
        in_table_cell: true,
    };
    let mut t = String::new();
    render_kids_exec(c, &mut t, &cctx);
    let trimmed = crate::text::trim_str(t.as_str());
    let cs = crate::text::chars_of(trimmed.as_str());
    let mut r = String::new();
    let mut i: usize = 0;
    while i < cs.len()
        invariant
            i <= cs.len(),
            r@ == replace_nl(cs@).take(i as int),
        decreases cs.len() - i,
    {
        if cs[i] == '\n' {
            r.push(' ');
        } else {
            r.push(cs[i]);
        }
        assert(replace_nl(cs@).take(i + 1) =~= replace_nl(cs@).take(i as int).push(
            replace_nl(cs@)[i as int],
        ));
        i = i + 1;
    }
    assert(replace_nl(cs@).take(cs.len() as int) =~= replace_nl(cs@));
    r
}

/// The texts of the cells of a row.
fn row_cells_exec(row: &JsonValue, ctx: &Context) -> (r: Vec<String>)
    requires
        decode_obj_node(row@) is Some,
    ensures
        crate::text::str_views(r@) == row_cells(
            decode_obj_node(row@)->0,
            kids(decode_obj_node(row@)->0).len() as int,
            ctx.model(),
        ),
    decreases row, 0int,
{
    let ghost n = decode_obj_node(row@)->0;
    let mut out: Vec<String> = Vec::new();
    match content_of(row) {
        None => {
            assert(crate::text::str_views(out@) =~= Seq::<Seq<char>>::empty());
        },
        Some(a) => {
            let ghost av = crate::prosemirror::from_markdown::jsons(a@);
            proof {
                lemma_decode_nodes_index(av);
            }
            let mut i: usize = 0;
            assert(crate::text::str_views(out@) =~= Seq::<Seq<char>>::empty());
            while i < a.len()
                invariant
                    i <= a.len(),
                    av == crate::prosemirror::from_markdown::jsons(a@),
                    decode_obj_nodes(av) == n.content,
                    kids(n) == decode_obj_nodes(av)->0,
                    kids(n).len() == av.len(),
                    forall|k: int| 0 <= k < av.len() ==> decode_obj_node(#[trigger] av[k]) == Some(kids(n)[k]),
                    decreases_to!(*row => *a),
                    crate::text::str_views(out@) == row_cells(n, i as int, ctx.model()),
                    out.len() == i,
                decreases a.len() - i,
            {
                assert(av[i as int] == a@[i as int]@);
                proof {
                    vstd::std_specs::vec::axiom_vec_index_decreases(*a, i as int);
                }
                let ct = cell_text_exec(&a[i], ctx);
                let ghost o0 = out@;
                out.push(ct);
                assert(crate::text::str_views(out@) =~= crate::text::str_views(o0).push(out@[i as int]@));
                i = i + 1;
            }
        },
    }
    out
}

/// The cell texts of the rows of a table.
fn rows_data_exec(j: &JsonValue, ctx: &Context) -> (r: Vec<Vec<String>>)
    requires
        decode_obj_node(j@) is Some,
    ensures
        rows_view(r@) == rows_data(
            decode_obj_node(j@)->0,
            kids(decode_obj_node(j@)->0).len() as int,
            ctx.model(),
        ),
    decreases j, 0int,
{
    let ghost n = decode_obj_node(j@)->0;
    let mut out: Vec<Vec<String>> = Vec::new();
    assert(rows_view(out@) =~= Seq::<Seq<Seq<char>>>::empty());
    match content_of(j) {
        None => {},
        Some(a) => {
            let ghost av = crate::prosemirror::from_markdown::jsons(a@);
            proof {
                lemma_decode_nodes_index(av);
            }
            let mut i: usize = 0;
            while i < a.len()
                invariant
                    i <= a.len(),
                    av == crate::prosemirror::from_markdown::jsons(a@),
                    decode_obj_nodes(av) == n.content,
                    kids(n) == decode_obj_nodes(av)->0,
                    kids(n).len() == av.len(),
                    forall|k: int| 0 <= k < av.len() ==> decode_obj_node(#[trigger] av[k]) == Some(kids(n)[k]),
                    decreases_to!(*j => *a),
                    rows_view(out@) == rows_data(n, i as int, ctx.model()),
                decreases a.len() - i,
            {
                assert(av[i as int] == a@[i as int]@);
                proof {
                    vstd::std_specs::vec::axiom_vec_index_decreases(*a, i as int);
                }
                let r = &a[i];
                if crate::text::str_eq(r.get_str("type").unwrap().as_str(), "tableRow") {
                    let cells = row_cells_exec(r, ctx);
                    let ghost o0 = out@;
                    out.push(cells);
                    assert(rows_view(out@) =~= rows_view(o0).push(crate::text::str_views(out@[o0.len() as int]@)));
                }
                i = i + 1;
            }
        },
    }
    out
}

fn byte_len128(s: &str) -> (n: u128)
    ensures
        n == byte_len(s@),
{
    let cs = crate::text::chars_of(s);
    let mut n: u128 = 0;
    let mut i: usize = 0;
    assert(cs@.take(0) =~= Seq::<char>::empty());
    while i < cs.len()
        invariant
            i <= cs.len(),
            cs@ == s@,
            n == byte_len(cs@.take(i as int)),
            n <= 4 * i,
        decreases cs.len() - i,
    {
        let u = crate::text::utf8_len_exec(cs[i]);
        proof {
            crate::text::lemma_byte_len_push(cs@.take(i as int), cs@[i as int]);
            assert(cs@.take(i + 1) =~= cs@.take(i as int).push(cs@[i as int]));
        }
        n = n + u as u128;
        i = i + 1;
    }
    assert(cs@.take(cs.len() as int) =~= cs@);
    n
}

fn push_repeat128(out: &mut String, c: char, n: u128)
    ensures
        final(out)@ == old(out)@ + repeat(c, n as nat),
{
    let mut k: u128 = 0;
    while k < n
        invariant
            k <= n,
            out@ == old(out)@ + repeat(c, k as nat),
        decreases n - k,
    {
        out.push(c);
        assert(repeat(c, (k + 1) as nat) =~= repeat(c, k as nat).push(c));
        k = k + 1;
    }
}

/// Writes the table of cell texts `data`, padded to its column widths.
fn table_text_exec(out: &mut String, data: &Vec<Vec<String>>, indent: &str)
    ensures
        final(out)@ == table_text(old(out)@, rows_view(data@), indent@),
{
    let ghost dv = rows_view(data@);
    if data.len() == 0 {
        return;
    }
    let mut cols: usize = 0;
    let mut r: usize = 0;
    assert(dv.take(0) =~= Seq::<Seq<Seq<char>>>::empty());
    while r < data.len()
        invariant
            r <= data.len(),
            dv == rows_view(data@),
            cols == max_len(dv.take(r as int)),
        decreases data.len() - r,
    {
        assert(dv.take(r + 1).drop_last() =~= dv.take(r as int));
        assert(dv[r as int].len() == data@[r as int].len());
        if data[r].len() > cols {
            cols = data[r].len();
        }
        r = r + 1;
    }
    assert(dv.take(data.len() as int) =~= dv);
    let mut widths: Vec<u128> = Vec::new();
    let mut c: usize = 0;
    while c < cols
        invariant
            c <= cols,
            dv == rows_view(data@),
            widths.len() == c,
            forall|k: int| 0 <= k < c ==> widths@[k] == col_width(dv, k),
        decreases cols - c,
    {
        let mut w: u128 = 3;
        let mut r: usize = 0;
        while r < data.len()
            invariant
                r <= data.len(),
                dv == rows_view(data@),
                w == col_width(dv.take(r as int), c as int),
            decreases data.len() - r,
        {
            assert(dv.take(r + 1).drop_last() =~= dv.take(r as int));
            assert(dv.take(r + 1).last() == dv[r as int]);
            if c < data[r].len() {
                assert(dv[r as int][c as int] == data@[r as int]@[c as int]@);
                let bl = byte_len128(data[r][c].as_str());
                if bl > w {
                    w = bl;
                }
            }
            r = r + 1;
        }
        assert(dv.take(data.len() as int) =~= dv);
        widths.push(w);
        c = c + 1;
    }
    let ghost o0 = out@;
    let mut r: usize = 0;
    while r < data.len()
        invariant
            r <= data.len(),
            dv == rows_view(data@),
            cols == max_len(dv),
            widths.len() == cols,
            forall|k: int| 0 <= k < cols ==> widths@[k] == col_width(dv, k),
            out@ == rows_text(o0, dv, r as int, indent@),
        decreases data.len() - r,
    {
        out.push_str(indent);
        out.push_str("|");
        let ghost rowv = dv[r as int];
        let mut c: usize = 0;
        let ghost start = out@;
        while c < cols
            invariant
                c <= cols,
                r < data.len(),
                dv == rows_view(data@),
                rowv == dv[r as int],
                widths.len() == cols,
                forall|k: int| 0 <= k < cols ==> widths@[k] == col_width(dv, k),
                out@ == start + row_text(dv, rowv, c as int),
            decreases cols - c,
        {
            let cell: String = if c < data[r].len() {
                assert(rowv[c as int] == data@[r as int]@[c as int]@);
                data[r][c].clone()
            } else {
                String::new()
            };
            assert(cell@ == cell_at(rowv, c as int));
            let bl = byte_len128(cell.as_str());
            assert(byte_len(cell@) <= col_width(dv, c as int)) by {
                lemma_col_width_ge(dv, r as int, c as int);
            }
            out.push_str(" ");
            out.push_str(cell.as_str());
            push_repeat128(out, ' ', widths[c] - bl);
            out.push_str(" |");
            c = c + 1;
        }
        out.push_str("\n");
        if r == 0 {
            out.push_str(indent);
            out.push_str("|");
            let ghost start2 = out@;
            let mut c: usize = 0;
            while c < cols
                invariant
                    c <= cols,
                    dv == rows_view(data@),
                    widths.len() == cols,
                    forall|k: int| 0 <= k < cols ==> widths@[k] == col_width(dv, k),
                    out@ == start2 + sep_text(dv, c as int),
                decreases cols - c,
            {
                out.push_str(" ");
                push_repeat128(out, '-', widths[c]);
                out.push_str(" |");
                c = c + 1;
            }
            out.push_str("\n");
        }
        r = r + 1;
    }
    out.push_str("\n");
}

proof fn lemma_col_width_ge(data: Seq<Seq<Seq<char>>>, r: int, c: int)
    requires
        0 <= r < data.len(),
    ensures
        byte_len(cell_at(data[r], c)) <= col_width(data, c) || (cell_at(data[r], c).len() == 0),
        byte_len(cell_at(data[r], c)) <= col_width(data, c),
    decreases data.len(),
{
    if r < data.len() - 1 {
        lemma_col_width_ge(data.drop_last(), r, c);
        assert(data.drop_last()[r] == data[r]);
    }
    lemma_col_width_ge3(data, c);
}

proof fn lemma_col_width_ge3(data: Seq<Seq<Seq<char>>>, c: int)
    ensures
        col_width(data, c) >= 3,
    decreases data.len(),
{
    if data.len() > 0 {
        lemma_col_width_ge3(data.drop_last(), c);
    }
}

// ---------------------------------------------------------------------------
// Nodes in array form
// ---------------------------------------------------------------------------

pub open spec fn ref_view(o: Option<&JsonValue>) -> Option<Json> {
    match o {
        Some(v) => Some(v@),
        None => None,
    }
}

/// The value under `k` of an object, unless absent or null.
fn obj_field<'a>(j: &'a JsonValue, k: &str) -> (r: Option<&'a JsonValue>)
    ensures
        j@ is Object ==> ref_view(r) == opt_field(j@, k@),
        r matches Some(v) ==> decreases_to!(*j => *v),
{
    match j {
        JsonValue::Object(es) => {
            proof {
                lemma_object_view(*es);
            }
            let ci = find_entry(es, k);
            if ci == es.len() {
                return None;
            }
            assert(crate::json::evals(es@)[ci as int] == es@[ci as int].1@);
            match &es[ci].1 {
                JsonValue::Null => None,
                v => {
                    proof {
                        vstd::std_specs::vec::axiom_vec_index_decreases(*es, ci as int);
                        assert(decreases_to!(*j => es[ci as int].1));
                    }
                    Some(v)
                },
            }
        },
        _ => None,
    }
}

/// Element `i` of an array, unless absent or null.
fn arr_field<'a>(a: &'a Vec<JsonValue>, i: usize) -> (r: Option<&'a JsonValue>)
    ensures
        ref_view(r) == seq_field(crate::prosemirror::from_markdown::jsons(a@), i as int),
        r matches Some(v) ==> decreases_to!(*a => *v),
{
    if i < a.len() {
        match &a[i] {
            JsonValue::Null => None,
            v => {
                proof {
                    vstd::std_specs::vec::axiom_vec_index_decreases(*a, i as int);
                }
                Some(v)
            },
        }
    } else {
        None
    }
}

fn node_fields_exec<'a>(j: &'a JsonValue) -> (r: Option<
    (&'a String, Option<&'a JsonValue>, Option<&'a JsonValue>, Option<&'a JsonValue>, Option<&'a JsonValue>),
>)
    ensures
        r is Some <==> node_fields(j@) is Some,
        r matches Some(f) ==> node_fields(j@) == Some(
            (f.0@, ref_view(f.1), ref_view(f.2), ref_view(f.3), ref_view(f.4)),
        ),
        r matches Some(f) ==> (f.2 matches Some(c) ==> decreases_to!(*j => *c)),
{
    match j {
        JsonValue::Object(_) => {
            match j.get_str("type") {
                Some(t) => Some(
                    (
                        t,
                        obj_field(j, "attrs"),
                        obj_field(j, "content"),
                        obj_field(j, "marks"),
                        obj_field(j, "text"),
                    ),
                ),
                None => None,
            }
        },
        JsonValue::Array(a) => {
            proof {
                crate::prosemirror::from_markdown::lemma_array_view(*a);
            }
            if 1 <= a.len() && a.len() <= 5 {
                match &a[0] {
                    JsonValue::Str(t) => {
                        let c = arr_field(a, 2);
                        proof {
                            if let Some(cv) = c {
                                assert(decreases_to!(*j => *a));
                                assert(decreases_to!(*j => *cv));
                            }
                        }
                        Some((t, arr_field(a, 1), c, arr_field(a, 3), arr_field(a, 4)))
                    },
                    _ => None,
                }
            } else {
                None
            }
        },
        _ => None,
    }
}

fn mark_fields_exec<'a>(j: &'a JsonValue) -> (r: Option<(&'a String, Option<&'a JsonValue>)>)
    ensures
        r is Some <==> mark_fields(j@) is Some,
        r matches Some(f) ==> mark_fields(j@) == Some((f.0@, ref_view(f.1))),
{
    match j {
        JsonValue::Object(_) => {
            match j.get_str("type") {
                Some(t) => Some((t, obj_field(j, "attrs"))),
                None => None,
            }
        },
        JsonValue::Array(a) => {
            proof {
                crate::prosemirror::from_markdown::lemma_array_view(*a);
            }
            if 1 <= a.len() && a.len() <= 2 {
                match &a[0] {
                    JsonValue::Str(t) => Some((t, arr_field(a, 1))),
                    _ => None,
                }
            } else {
                None
            }
        },
        _ => None,
    }
}

proof fn lemma_field_keys()
    ensures
        key_index(seq!["type"@, "attrs"@], "type"@, 0) == 0,
        key_index(seq!["type"@, "attrs"@], "attrs"@, 0) == 1,
        key_index(seq!["type"@, "attrs"@, "content"@, "marks"@, "text"@], "type"@, 0) == 0,
        key_index(seq!["type"@, "attrs"@, "content"@, "marks"@, "text"@], "attrs"@, 0) == 1,
        key_index(seq!["type"@, "attrs"@, "content"@, "marks"@, "text"@], "content"@, 0) == 2,
        key_index(seq!["type"@, "attrs"@, "content"@, "marks"@, "text"@], "marks"@, 0) == 3,
        key_index(seq!["type"@, "attrs"@, "content"@, "marks"@, "text"@], "text"@, 0) == 4,
{
    reveal_strlit("type");
    reveal_strlit("attrs");
    reveal_strlit("content");
    reveal_strlit("marks");
    reveal_strlit("text");
    assert("type"@.len() == 4 && "text"@.len() == 4 && "attrs"@.len() == 5 && "marks"@.len() == 5
        && "content"@.len() == 7);
    assert("type"@ != "attrs"@);
    assert("type"@ != "content"@);
    assert("type"@ != "marks"@);
    assert("type"@[1] != "text"@[1]);
    assert("type"@ != "text"@);
    assert("attrs"@ != "content"@);
    assert("attrs"@[0] != "marks"@[0]);
    assert("attrs"@ != "marks"@);
    assert("attrs"@ != "text"@);
    assert("content"@ != "marks"@);
    assert("content"@ != "text"@);
    assert("marks"@ != "text"@);
    reveal_with_fuel(key_index, 6);
}

fn or_null(v: Option<&JsonValue>) -> (r: JsonValue)
    requires
        ref_view(v) != Some(Json::Null),
    ensures
        non_null(r@) == ref_view(v),
        v is None ==> r@ == Json::Null,
{
    match v {
        Some(x) => {
            let c = x.deep_clone();
            c
        },
        None => JsonValue::Null,
    }
}

/// A mark in object form.
fn mark_to_object(j: &JsonValue) -> (r: Option<JsonValue>)
    ensures
        r is Some <==> decode_mark(j@) is Some,
        r matches Some(o) ==> decode_obj_mark(o@) == decode_mark(j@),
{
    let (t, a) = match mark_fields_exec(j) {
        Some(f) => f,
        None => {
            return None;
        },
    };
    let mut e = crate::json::new_entries();
    push_entry(&mut e, "type", jstring(t.clone()));
    push_entry(&mut e, "attrs", or_null(a));
    proof {
        lemma_field_keys();
        assert(ekeys(e@) =~= seq!["type"@, "attrs"@]);
    }
    Some(crate::json::object(e))
}

proof fn lemma_decode_nodes_none(a: Seq<Json>, i: int)
    requires
        0 <= i < a.len(),
        decode_node(a[i]) is None,
    ensures
        decode_nodes(a) is None,
    decreases a.len(),
{
    if i < a.len() - 1 {
        assert(a.drop_last()[i] == a[i]);
        lemma_decode_nodes_none(a.drop_last(), i);
    }
}

proof fn lemma_decode_marks_none(a: Seq<Json>, i: int)
    requires
        0 <= i < a.len(),
        decode_mark(a[i]) is None,
    ensures
        decode_marks(a) is None,
    decreases a.len(),
{
    if i < a.len() - 1 {
        assert(a.drop_last()[i] == a[i]);
        lemma_decode_marks_none(a.drop_last(), i);
    }
}

/// The marks of an array, each in object form.
fn marks_to_objects(a: &Vec<JsonValue>) -> (r: Option<Vec<JsonValue>>)
    ensures
        r is Some <==> decode_marks(crate::prosemirror::from_markdown::jsons(a@)) is Some,
        r matches Some(v) ==> decode_obj_marks(crate::prosemirror::from_markdown::jsons(v@))
            == decode_marks(crate::prosemirror::from_markdown::jsons(a@)),
{
    let ghost av = crate::prosemirror::from_markdown::jsons(a@);
    let mut out: Vec<JsonValue> = Vec::new();
    let mut i: usize = 0;
    assert(av.take(0) =~= Seq::<Json>::empty());
    assert(crate::prosemirror::from_markdown::jsons(out@) =~= Seq::<Json>::empty());
    while i < a.len()
        invariant
            i <= a.len(),
            av == crate::prosemirror::from_markdown::jsons(a@),
            decode_marks(av.take(i as int)) is Some,
            decode_obj_marks(crate::prosemirror::from_markdown::jsons(out@)) == decode_marks(av.take(i as int)),
        decreases a.len() - i,
    {
        assert(av.take(i + 1).drop_last() =~= av.take(i as int));
        assert(av.take(i + 1).last() == a@[i as int]@);
        match mark_to_object(&a[i]) {
            Some(o) => {
                let ghost before = crate::prosemirror::from_markdown::jsons(out@);
                crate::prosemirror::from_markdown::push_json(&mut out, o);
                proof {
                    let now = crate::prosemirror::from_markdown::jsons(out@);
                    assert(now.drop_last() =~= before);
                }
            },
            None => {
                proof {
                    assert(av[i as int] == a@[i as int]@);
                    lemma_decode_marks_none(av, i as int);
                }
                return None;
            },
        }
        i = i + 1;
    }
    assert(av.take(a.len() as int) =~= av);
    Some(out)
}

/// A node in object form all the way down: what serde reads from a node in
/// either form, written as objects.
fn node_to_object(j: &JsonValue) -> (r: Option<JsonValue>)
    ensures
        r is Some <==> decode_node(j@) is Some,
        r matches Some(o) ==> decode_obj_node(o@) == decode_node(j@),
    decreases j,
{
    let (t, at, c, m, x) = match node_fields_exec(j) {
        Some(f) => f,
        None => {
            return None;
        },
    };
    let content: JsonValue = match c {
        None => JsonValue::Null,
        Some(JsonValue::Array(ca)) => {
            proof {
                crate::prosemirror::from_markdown::lemma_array_view(*ca);
            }
            let ghost cv = crate::prosemirror::from_markdown::jsons(ca@);
            let mut out: Vec<JsonValue> = Vec::new();
            let mut i: usize = 0;
            assert(cv.take(0) =~= Seq::<Json>::empty());
            assert(crate::prosemirror::from_markdown::jsons(out@) =~= Seq::<Json>::empty());
            while i < ca.len()
                invariant
                    i <= ca.len(),
                    cv == crate::prosemirror::from_markdown::jsons(ca@),
                    decreases_to!(*j => *ca),
                    node_fields(j@) matches Some((_, _, Some(Json::Array(cc)), _, _)) && cc == cv,
                    decode_nodes(cv.take(i as int)) is Some,
                    decode_obj_nodes(crate::prosemirror::from_markdown::jsons(out@)) == decode_nodes(
                        cv.take(i as int),
                    ),
                decreases ca.len() - i,
            {
                assert(cv.take(i + 1).drop_last() =~= cv.take(i as int));
                assert(cv.take(i + 1).last() == ca@[i as int]@);
                proof {
                    vstd::std_specs::vec::axiom_vec_index_decreases(*ca, i as int);
                    assert(decreases_to!(*j => ca[i as int]));
                }
                match node_to_object(&ca[i]) {
                    Some(o) => {
                        let ghost before = crate::prosemirror::from_markdown::jsons(out@);
                        crate::prosemirror::from_markdown::push_json(&mut out, o);
                        proof {
                            let now = crate::prosemirror::from_markdown::jsons(out@);
                            assert(now.drop_last() =~= before);
                        }
                    },
                    None => {
                        proof {
                            assert(cv[i as int] == ca@[i as int]@);
                            lemma_decode_nodes_none(cv, i as int);
                        }
                        return None;
                    },
                }
                i = i + 1;
            }
            assert(cv.take(ca.len() as int) =~= cv);
            proof {
                crate::prosemirror::from_markdown::lemma_array_view(out);
            }
            JsonValue::Array(out)
        },
        Some(_) => {
            return None;
        },
    };
    let marks: JsonValue = match m {
        None => JsonValue::Null,
        Some(JsonValue::Array(ma)) => {
            proof {
                crate::prosemirror::from_markdown::lemma_array_view(*ma);
            }
            match marks_to_objects(ma) {
                Some(v) => {
                    proof {
                        crate::prosemirror::from_markdown::lemma_array_view(v);
                    }
                    JsonValue::Array(v)
                },
                None => {
                    return None;
                },
            }
        },
        Some(_) => {
            return None;
        },
    };
    let text: JsonValue = match x {
        None => JsonValue::Null,
        Some(JsonValue::Str(s)) => jstring(s.clone()),
        Some(_) => {
            return None;
        },
    };
    let mut e = crate::json::new_entries();
    push_entry(&mut e, "type", jstring(t.clone()));
    push_entry(&mut e, "attrs", or_null(at));
    push_entry(&mut e, "content", content);
    push_entry(&mut e, "marks", marks);
    push_entry(&mut e, "text", text);
    proof {
        lemma_field_keys();
        assert(ekeys(e@) =~= seq!["type"@, "attrs"@, "content"@, "marks"@, "text"@]);
    }
    Some(crate::json::object(e))
}

/// ProseMirror JSON as markdown; a value that is no node gives nothing.
pub fn to_markdown(value: &JsonValue) -> (r: String)
    ensures
        r@ == to_markdown_spec(value@),
{
    let node = match node_to_object(value) {
        Some(o) => o,
        None => {
            return String::new();
        },
    };
    let mut out = String::new();
    render_node(&node, &mut out, &Context::default_ctx());
    let cs = crate::text::chars_of(out.as_str());
    let t = crate::text::trim_end_chars(&cs);
    crate::text::string_of(&t)
}

/// The array under key `k` of an object, if that is what it holds.
pub fn array_entry<'a>(j: &'a JsonValue, k: &str) -> (r: Option<&'a Vec<JsonValue>>)
    ensures
        match json_get(j@, k@) {
            Some(Json::Array(a)) => r matches Some(v) && crate::prosemirror::from_markdown::jsons(v@)
                == a && decreases_to!(*j => *v),
            _ => r is None,
        },
{
    match j {
        JsonValue::Object(es) => {
            proof {
                lemma_object_view(*es);
            }
            let ci = find_entry(es, k);
            if ci == es.len() {
                return None;
            }
            assert(crate::json::evals(es@)[ci as int] == es@[ci as int].1@);
            match &es[ci].1 {
                JsonValue::Array(a) => {
                    proof {
                        crate::prosemirror::from_markdown::lemma_array_view(*a);
                        vstd::std_specs::vec::axiom_vec_index_decreases(*es, ci as int);
                        assert(decreases_to!(es[ci as int].1 => es[ci as int].1->Array_0));
                        assert(es[ci as int].1->Array_0 == *a);
                        assert(decreases_to!(*j => *a));
                    }
                    Some(a)
                },
                _ => None,
            }
        },
        _ => None,
    }
}
} // verus!
