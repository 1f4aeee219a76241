//! Markdown to ProseMirror JSON.
//!
//! The markdown is parsed by comrak, which renders the parsed document as
//! CommonMark XML; that XML is read into a tree, and the tree is converted
//! node by node into Legend Keeper's ProseMirror schema.

use vstd::prelude::*;
use crate::json::{Json, JsonValue, get_str, json_get, key_index, lemma_key_index, new_entries,
    object, push_entry, jstr, jstring, jnum, ekeys, evals};
use crate::lk::schema::Resource;
use crate::prosemirror::md_lines::{ExtractedTable, extract_headerless_tables, extract_tables_spec,
    table_model};
use crate::prosemirror::md_xml::{MdNode, MdTree, attr_of, kids_of, lemma_node_view, p_document,
    parse_commonmark_xml};
use crate::text::{chars_of, eq_ignore_ascii, eq_ignore_ascii_case, find_from, find_seq_from,
    string_of_range, trim_spec};

verus! {

broadcast use vstd::string::group_string_axioms;

// ---------------------------------------------------------------------------
// ProseMirror node shapes
// ---------------------------------------------------------------------------

/// Models of a list of JSON values.
pub open spec fn jsons(v: Seq<JsonValue>) -> Seq<Json> {
    Seq::new(v.len(), |i: int| v[i]@)
}

/// `{"type": t}`.
pub open spec fn typed(t: Seq<char>) -> Json {
    Json::Object(Seq::empty().push("type"@), Seq::empty().push(Json::Str(t)))
}

/// `{"type": t, k: v}`.
pub open spec fn typed_with(t: Seq<char>, k: Seq<char>, v: Json) -> Json {
    Json::Object(Seq::empty().push("type"@).push(k), Seq::empty().push(Json::Str(t)).push(v))
}

/// `{"type": t, k1: v1, k2: v2}`.
pub open spec fn typed_with2(t: Seq<char>, k1: Seq<char>, v1: Json, k2: Seq<char>, v2: Json) -> Json {
    Json::Object(
        Seq::empty().push("type"@).push(k1).push(k2),
        Seq::empty().push(Json::Str(t)).push(v1).push(v2),
    )
}

/// `{k: v}`.
pub open spec fn obj1(k: Seq<char>, v: Json) -> Json {
    Json::Object(Seq::empty().push(k), Seq::empty().push(v))
}

/// `{k1: v1, k2: v2}`.
pub open spec fn obj2(k1: Seq<char>, v1: Json, k2: Seq<char>, v2: Json) -> Json {
    Json::Object(Seq::empty().push(k1).push(k2), Seq::empty().push(v1).push(v2))
}

/// A node of type `t` with `content` when it has any.
pub open spec fn block(t: Seq<char>, content: Seq<Json>) -> Json {
    if content.len() == 0 {
        typed(t)
    } else {
        typed_with(t, "content"@, Json::Array(content))
    }
}

pub open spec fn text_node(s: Seq<char>) -> Json {
    typed_with("text"@, "text"@, Json::Str(s))
}

pub open spec fn para(inl: Seq<Json>) -> Json {
    block("paragraph"@, inl)
}

// ---------------------------------------------------------------------------
// Building JSON values
// ---------------------------------------------------------------------------

pub proof fn lemma_array_view(v: Vec<JsonValue>)
    ensures
        JsonValue::Array(v)@ == Json::Array(jsons(v@)),
{
    let a = JsonValue::Array(v)@;
    assert(a->Array_0 =~= jsons(v@));
}

/// The array of the values.
pub fn array_of(v: Vec<JsonValue>) -> (r: JsonValue)
    ensures
        r@ == Json::Array(jsons(v@)),
{
    proof {
        lemma_array_view(v);
    }
    JsonValue::Array(v)
}

/// An array of one value.
pub fn array1(x: JsonValue) -> (r: JsonValue)
    ensures
        r@ == Json::Array(seq![x@]),
{
    let ghost xv = x@;
    let mut v: Vec<JsonValue> = Vec::new();
    v.push(x);
    assert(jsons(v@) =~= seq![xv]);
    array_of(v)
}

pub fn typed_exec(t: &str) -> (r: JsonValue)
    ensures
        r@ == typed(t@),
{
    let mut e = new_entries();
    push_entry(&mut e, "type", jstr(t));
    object(e)
}

pub fn typed_with_exec(t: &str, k: &str, v: JsonValue) -> (r: JsonValue)
    ensures
        r@ == typed_with(t@, k@, v@),
{
    let mut e = new_entries();
    push_entry(&mut e, "type", jstr(t));
    push_entry(&mut e, k, v);
    object(e)
}

pub fn typed_with2_exec(t: &str, k1: &str, v1: JsonValue, k2: &str, v2: JsonValue) -> (r: JsonValue)
    ensures
        r@ == typed_with2(t@, k1@, v1@, k2@, v2@),
{
    let mut e = new_entries();
    push_entry(&mut e, "type", jstr(t));
    push_entry(&mut e, k1, v1);
    push_entry(&mut e, k2, v2);
    object(e)
}

pub fn obj1_exec(k: &str, v: JsonValue) -> (r: JsonValue)
    ensures
        r@ == obj1(k@, v@),
{
    let mut e = new_entries();
    push_entry(&mut e, k, v);
    object(e)
}

pub fn obj2_exec(k1: &str, v1: JsonValue, k2: &str, v2: JsonValue) -> (r: JsonValue)
    ensures
        r@ == obj2(k1@, v1@, k2@, v2@),
{
    let mut e = new_entries();
    push_entry(&mut e, k1, v1);
    push_entry(&mut e, k2, v2);
    object(e)
}

pub fn block_exec(t: &str, content: Vec<JsonValue>) -> (r: JsonValue)
    ensures
        r@ == block(t@, jsons(content@)),
{
    if content.len() == 0 {
        typed_exec(t)
    } else {
        typed_with_exec(t, "content", array_of(content))
    }
}

pub fn text_node_exec(s: String) -> (r: JsonValue)
    ensures
        r@ == text_node(s@),
{
    typed_with_exec("text", "text", jstring(s))
}

pub fn para_exec(inl: Vec<JsonValue>) -> (r: JsonValue)
    ensures
        r@ == para(jsons(inl@)),
{
    block_exec("paragraph", inl)
}

/// Appends `b` to `a`.
pub fn append_all(a: &mut Vec<JsonValue>, b: Vec<JsonValue>)
    ensures
        jsons(final(a)@) == jsons(old(a)@) + jsons(b@),
{
    let ghost a0 = jsons(a@);
    let ghost bv = jsons(b@);
    let mut b = b;
    a.append(&mut b);
    assert(jsons(a@) =~= a0 + bv);
}

/// Appends `x` to `a`.
pub fn push_json(a: &mut Vec<JsonValue>, x: JsonValue)
    ensures
        jsons(final(a)@) == jsons(old(a)@).push(x@),
{
    let ghost a0 = jsons(a@);
    let ghost xv = x@;
    a.push(x);
    assert(jsons(a@) =~= a0.push(xv));
}

// ---------------------------------------------------------------------------
// Mentions
// ---------------------------------------------------------------------------

/// The name and id of each resource: what `[[Name]]` mentions resolve
/// against.
pub open spec fn named(rs: Seq<Resource>) -> Seq<(Seq<char>, Seq<char>)> {
    Seq::new(rs.len(), |i: int| (rs[i].name@, rs[i].id@))
}

/// The id of the first resource whose name equals `m` without regard to
/// ASCII case, or the empty string.
pub open spec fn mention_id(rs: Seq<(Seq<char>, Seq<char>)>, m: Seq<char>) -> Seq<char>
    decreases rs.len(),
{
    if rs.len() == 0 {
        seq![]
    } else if eq_ignore_ascii(rs[0].0, m) {
        rs[0].1
    } else {
        mention_id(rs.drop_first(), m)
    }
}

pub open spec fn mention_node(rs: Seq<(Seq<char>, Seq<char>)>, m: Seq<char>) -> Json {
    typed_with(
        "mention"@,
        "attrs"@,
        obj2("id"@, Json::Str(mention_id(rs, m)), "text"@, Json::Str(m)),
    )
}

pub open spec fn tail_text(t: Seq<char>) -> Seq<Json> {
    if t.len() > 0 {
        seq![text_node(t)]
    } else {
        seq![]
    }
}

/// A mention resolves to the first resource whose name equals it without
/// regard to ASCII case, and to the empty id when no resource has that name.
pub proof fn law_mention_resolves_first_match(rs: Seq<(Seq<char>, Seq<char>)>, m: Seq<char>)
    ensures
        forall|i: int|
            0 <= i < rs.len() && eq_ignore_ascii(#[trigger] rs[i].0, m) && (forall|j: int|
                0 <= j < i ==> !eq_ignore_ascii(rs[j].0, m)) ==> mention_id(rs, m) == rs[i].1,
        (forall|i: int| 0 <= i < rs.len() ==> !eq_ignore_ascii(#[trigger] rs[i].0, m)) ==> mention_id(
            rs,
            m,
        ) == Seq::<char>::empty(),
    decreases rs.len(),
{
    if rs.len() > 0 {
        law_mention_resolves_first_match(rs.drop_first(), m);
        assert forall|i: int|
            0 <= i < rs.len() && eq_ignore_ascii(#[trigger] rs[i].0, m) && (forall|j: int|
                0 <= j < i ==> !eq_ignore_ascii(rs[j].0, m)) implies mention_id(rs, m) == rs[i].1 by {
            if i > 0 {
                assert(!eq_ignore_ascii(rs[0].0, m));
                assert(rs.drop_first()[i - 1] == rs[i]);
                assert forall|j: int| 0 <= j < i - 1 implies !eq_ignore_ascii(rs.drop_first()[j].0, m) by {
                    assert(rs.drop_first()[j] == rs[j + 1]);
                }
                assert(eq_ignore_ascii(rs.drop_first()[i - 1].0, m));
            }
        }
        if forall|i: int| 0 <= i < rs.len() ==> !eq_ignore_ascii(#[trigger] rs[i].0, m) {
            assert(!eq_ignore_ascii(rs[0].0, m));
            assert forall|i: int| 0 <= i < rs.drop_first().len() implies !eq_ignore_ascii(
                #[trigger] rs.drop_first()[i].0,
                m,
            ) by {
                assert(rs.drop_first()[i] == rs[i + 1]);
            }
        }
    }
}

/// Text cut at `[[Name]]` mentions into text and mention nodes.
pub open spec fn mentions(t: Seq<char>, rs: Seq<(Seq<char>, Seq<char>)>) -> Seq<Json>
    decreases t.len(),
{
    match find_from(t, "[["@, 0) {
        Some(st) => match find_from(t, "]]"@, st) {
            Some(en) => if 0 <= st && st + 2 <= en && en + 2 <= t.len() {
                (if st > 0 {
                    seq![text_node(t.take(st))]
                } else {
                    seq![]
                }) + seq![mention_node(rs, t.subrange(st + 2, en))] + mentions(t.skip(en + 2), rs)
            } else {
                tail_text(t)
            },
            None => tail_text(t),
        },
        None => tail_text(t),
    }
}

fn mention_id_exec(rs: &Vec<Resource>, m: &str) -> (r: String)
    ensures
        r@ == mention_id(named(rs@), m@),
{
    let ghost nm = named(rs@);
    let mut i: usize = 0;
    assert(nm.skip(0) =~= nm);
    while i < rs.len()
        invariant
            i <= rs.len(),
            nm == named(rs@),
            mention_id(nm, m@) == mention_id(nm.skip(i as int), m@),
        decreases rs.len() - i,
    {
        assert(nm.skip(i as int)[0] == (rs@[i as int].name@, rs@[i as int].id@));
        if eq_ignore_ascii_case(rs[i].name.as_str(), m) {
            return rs[i].id.clone();
        }
        assert(nm.skip(i as int).drop_first() =~= nm.skip(i + 1));
        i = i + 1;
    }
    String::new()
}

fn mention_node_exec(rs: &Vec<Resource>, m: String) -> (r: JsonValue)
    ensures
        r@ == mention_node(named(rs@), m@),
{
    let id = mention_id_exec(rs, m.as_str());
    typed_with_exec("mention", "attrs", obj2_exec("id", jstring(id), "text", jstring(m)))
}

fn tail_text_exec(t: &Vec<char>) -> (r: Vec<JsonValue>)
    ensures
        jsons(r@) == tail_text(t@),
{
    let mut r: Vec<JsonValue> = Vec::new();
    if t.len() > 0 {
        push_json(&mut r, text_node_exec(crate::text::string_of(t)));
    }
    assert(jsons(r@) =~= tail_text(t@));
    r
}

/// Text cut at `[[Name]]` mentions; each mention names the resource of that
/// name (compared without ASCII case), or no resource.
pub fn convert_text_with_mentions(text: &str, resources: &Vec<Resource>) -> (r: Vec<JsonValue>)
    ensures
        jsons(r@) == mentions(text@, named(resources@)),
{
    let open = chars_of("[[");
    let close = chars_of("]]");
    proof {
        reveal_strlit("[[");
        reveal_strlit("]]");
    }
    let mut rem = chars_of(text);
    let mut out: Vec<JsonValue> = Vec::new();
    assert(jsons(out@) =~= Seq::<Json>::empty());
    loop
        invariant
            open@ == "[["@,
            close@ == "]]"@,
            mentions(text@, named(resources@)) == jsons(out@) + mentions(rem@, named(resources@)),
        decreases rem.len(),
    {
        let ghost t = rem@;
        proof {
            crate::prosemirror::md_xml::lemma_find_from_bounds(t, "[["@, 0);
        }
        let st = match find_seq_from(&rem, &open, 0) {
            Some(st) => st,
            None => {
                let tail = tail_text_exec(&rem);
                append_all(&mut out, tail);
                return out;
            },
        };
        proof {
            crate::prosemirror::md_xml::lemma_find_from_bounds(t, "]]"@, st as int);
        }
        let en = match find_seq_from(&rem, &close, st) {
            Some(en) => en,
            None => {
                let tail = tail_text_exec(&rem);
                append_all(&mut out, tail);
                return out;
            },
        };
        if !(en - st >= 2 && rem.len() - en >= 2) {
            let tail = tail_text_exec(&rem);
            append_all(&mut out, tail);
            return out;
        }
        let ghost before = jsons(out@);
        let mut piece: Vec<JsonValue> = Vec::new();
        if st > 0 {
            push_json(&mut piece, text_node_exec(string_of_range(&rem, 0, st)));
        }
        push_json(&mut piece, mention_node_exec(resources, string_of_range(&rem, st + 2, en)));
        assert(jsons(piece@) =~= (if st > 0 {
            seq![text_node(t.take(st as int))]
        } else {
            seq![]
        }) + seq![mention_node(named(resources@), t.subrange(st + 2, en as int))]);
        append_all(&mut out, piece);
        let rest = string_of_range(&rem, en + 2, rem.len());
        rem = chars_of(rest.as_str());
        assert(rem@ =~= t.skip(en + 2));
    }
}


// ---------------------------------------------------------------------------
// Marks
// ---------------------------------------------------------------------------

/// `j` with `k` set to `v`: replaced where `j` has the key, else added.
pub open spec fn json_set(j: Json, k: Seq<char>, v: Json) -> Json {
    match j {
        Json::Object(ks, vs) => {
            let i = key_index(ks, k, 0);
            if i < ks.len() {
                Json::Object(ks, vs.update(i, v))
            } else {
                Json::Object(ks.push(k), vs.push(v))
            }
        },
        _ => j,
    }
}

/// The marks of a node, as an array.
pub open spec fn marks_of(n: Json) -> Seq<Json> {
    match json_get(n, "marks"@) {
        Some(Json::Array(a)) => a,
        _ => seq![],
    }
}

/// A text node gets mark `m` after its marks; other nodes stay.
pub open spec fn with_mark(n: Json, m: Json) -> Json {
    if get_str(n, "type"@) == Some("text"@) {
        json_set(n, "marks"@, Json::Array(marks_of(n).push(m)))
    } else {
        n
    }
}

pub open spec fn add_marks(ns: Seq<Json>, m: Json) -> Seq<Json> {
    Seq::new(ns.len(), |i: int| with_mark(ns[i], m))
}

fn set_entry(entries: Vec<(String, JsonValue)>, k: &str, v: JsonValue) -> (r: Vec<(String, JsonValue)>)
    ensures
        Json::Object(ekeys(r@), evals(r@)) == json_set(
            Json::Object(ekeys(entries@), evals(entries@)),
            k@,
            v@,
        ),
{
    let ghost ks = ekeys(entries@);
    let ghost vs = evals(entries@);
    proof { lemma_key_index(ks, k@, 0); }
    let mut es = entries;
    let mut i: usize = 0;
    while i < es.len()
        invariant
            i <= es.len(),
            ks == ekeys(es@),
            vs == evals(es@),
            ks == ekeys(entries@),
            vs == evals(entries@),
            key_index(ks, k@, 0) == key_index(ks, k@, i as int),
        decreases es.len() - i,
    {
        if crate::text::str_eq(es[i].0.as_str(), k) {
            assert(key_index(ks, k@, i as int) == i);
            let ghost vv = v@;
            es.set(i, (crate::text::copy_str(k), v));
            assert(ekeys(es@) =~= ks);
            assert(evals(es@) =~= vs.update(i as int, vv));
            return es;
        }
        i = i + 1;
    }
    push_entry(&mut es, k, v);
    es
}

pub fn json_set_exec(j: JsonValue, k: &str, v: JsonValue) -> (r: JsonValue)
    ensures
        r@ == json_set(j@, k@, v@),
{
    match j {
        JsonValue::Object(entries) => {
            proof {
                crate::json::lemma_object_view(entries);
            }
            object(set_entry(entries, k, v))
        },
        other => other,
    }
}

/// Copies of the values.
pub fn clone_jsons(v: &Vec<JsonValue>) -> (r: Vec<JsonValue>)
    ensures
        jsons(r@) == jsons(v@),
{
    let mut r: Vec<JsonValue> = Vec::new();
    let mut i: usize = 0;
    while i < v.len()
        invariant
            i <= v.len(),
            jsons(r@) == jsons(v@).take(i as int),
        decreases v.len() - i,
    {
        push_json(&mut r, v[i].deep_clone());
        assert(jsons(v@).take(i + 1) =~= jsons(v@).take(i as int).push(v@[i as int]@));
        i = i + 1;
    }
    assert(jsons(v@).take(v.len() as int) =~= jsons(v@));
    r
}

fn with_mark_exec(n: JsonValue, m: &JsonValue) -> (r: JsonValue)
    ensures
        r@ == with_mark(n@, m@),
{
    let is_text = match n.get_str("type") {
        Some(t) => crate::text::str_eq(t.as_str(), "text"),
        None => false,
    };
    if !is_text {
        return n;
    }
    let mut marks: Vec<JsonValue> = match n.get("marks") {
        Some(JsonValue::Array(a)) => {
            proof {
                lemma_array_view(*a);
            }
            clone_jsons(a)
        },
        _ => Vec::new(),
    };
    assert(jsons(marks@) == marks_of(n@));
    push_json(&mut marks, m.deep_clone());
    json_set_exec(n, "marks", array_of(marks))
}

/// Puts mark `mark` on every text node of the list.
pub fn add_mark_to_nodes(nodes: Vec<JsonValue>, mark: &JsonValue) -> (r: Vec<JsonValue>)
    ensures
        jsons(r@) == add_marks(jsons(nodes@), mark@),
{
    let ghost ns = jsons(nodes@);
    let mut rest = nodes;
    let mut out: Vec<JsonValue> = Vec::new();
    let mut i: usize = 0;
    let n = rest.len();
    assert(jsons(rest@) =~= ns.skip(0));
    assert(n == ns.len());
    while i < n
        invariant
            i <= n,
            n == ns.len(),
            jsons(rest@) == ns.skip(i as int),
            rest.len() == n - i,
            jsons(out@) == add_marks(ns, mark@).take(i as int),
        decreases n - i,
    {
        assert(jsons(rest@)[0] == rest@[0]@);
        let ghost old_rest = rest@;
        let x = rest.remove(0);
        assert(x@ == ns[i as int]);
        assert(rest@ =~= old_rest.subrange(1, old_rest.len() as int));
        assert forall|j: int| 0 <= j < rest.len() implies jsons(rest@)[j] == ns.skip(i + 1)[j] by {
            assert(jsons(rest@)[j] == old_rest[j + 1]@);
            assert(jsons(old_rest)[j + 1] == ns.skip(i as int)[j + 1]);
        }
        assert(jsons(rest@) =~= ns.skip(i + 1));
        push_json(&mut out, with_mark_exec(x, mark));
        assert(add_marks(ns, mark@).take(i + 1) =~= add_marks(ns, mark@).take(i as int).push(
            with_mark(ns[i as int], mark@),
        ));
        i = i + 1;
    }
    assert(add_marks(ns, mark@).take(n as int) =~= add_marks(ns, mark@));
    out
}

// ---------------------------------------------------------------------------
// Inline nodes
// ---------------------------------------------------------------------------

pub open spec fn hard_break() -> Json {
    typed("hardBreak"@)
}

pub open spec fn code_node(lit: Seq<char>) -> Json {
    typed_with2("text"@, "text"@, Json::Str(lit), "marks"@, Json::Array(seq![typed("code"@)]))
}

pub open spec fn link_mark(href: Seq<char>) -> Json {
    typed_with("link"@, "attrs"@, obj1("href"@, Json::Str(href)))
}

pub open spec fn image_node(url: Seq<char>) -> Json {
    typed_with(
        "mediaSingle"@,
        "content"@,
        Json::Array(
            seq![
                typed_with(
                    "media"@,
                    "attrs"@,
                    obj2("url"@, Json::Str(url), "type"@, Json::Str("external"@)),
                ),
            ],
        ),
    )
}

pub open spec fn attr_or_empty(t: MdTree, k: Seq<char>) -> Seq<char> {
    match attr_of(t, k) {
        Some(v) => v,
        None => seq![],
    }
}

/// Elements whose content gets a mark.
pub open spec fn is_marked(n: Seq<char>) -> bool {
    n == "emph"@ || n == "strong"@ || n == "strikethrough"@ || n == "link"@
}

/// The mark of a marking element.
pub open spec fn mark_for(t: MdTree) -> Json {
    if t.name == "emph"@ {
        typed("em"@)
    } else if t.name == "strong"@ {
        typed("strong"@)
    } else if t.name == "strikethrough"@ {
        typed("strike"@)
    } else {
        link_mark(attr_or_empty(t, "destination"@))
    }
}

/// An inline element as ProseMirror inline nodes.
pub open spec fn conv_inline(t: MdTree, rs: Seq<(Seq<char>, Seq<char>)>) -> Seq<Json>
    decreases t, 1int,
{
    let n = t.name;
    if n == "text"@ {
        mentions(t.text, rs)
    } else if n == "softbreak"@ || n == "linebreak"@ {
        seq![hard_break()]
    } else if n == "code"@ {
        seq![code_node(t.text)]
    } else if is_marked(n) {
        add_marks(conv_inlines(t, t.children.len() as int, rs), mark_for(t))
    } else if n == "image"@ {
        seq![image_node(attr_or_empty(t, "destination"@))]
    } else if n == "html_inline"@ {
        if t.text.len() > 0 {
            seq![text_node(t.text)]
        } else {
            seq![]
        }
    } else {
        seq![]
    }
}

/// A JSON object with as many values as keys, as every parsed value is.
pub open spec fn well_formed_object(j: Json) -> bool {
    j matches Json::Object(ks, vs) && ks.len() == vs.len()
}

proof fn lemma_key_index_push_absent(ks: Seq<Seq<char>>, k: Seq<char>, i: int)
    requires
        0 <= i <= ks.len(),
        forall|j: int| i <= j < ks.len() ==> ks[j] != k,
    ensures
        key_index(ks.push(k), k, i) == ks.len(),
    decreases ks.len() - i,
{
    if i < ks.len() {
        assert(ks.push(k)[i] == ks[i]);
        lemma_key_index_push_absent(ks, k, i + 1);
    } else {
        assert(ks.push(k)[i] == k);
    }
}

proof fn lemma_set_then_get(j: Json, k: Seq<char>, v: Json)
    requires
        well_formed_object(j),
    ensures
        json_get(json_set(j, k, v), k) == Some(v),
        well_formed_object(json_set(j, k, v)),
{
    if let Json::Object(ks, vs) = j {
        lemma_key_index(ks, k, 0);
        let i = key_index(ks, k, 0);
        if i >= ks.len() {
            lemma_key_index_push_absent(ks, k, 0);
        }
    }
}

pub open spec fn all_well_formed(s: Seq<Json>) -> bool {
    forall|i: int| 0 <= i < s.len() ==> #[trigger] well_formed_object(s[i])
}

proof fn lemma_concat_well_formed(a: Seq<Json>, b: Seq<Json>)
    requires
        all_well_formed(a),
        all_well_formed(b),
    ensures
        all_well_formed(a + b),
{
    assert forall|i: int| 0 <= i < (a + b).len() implies #[trigger] well_formed_object((a + b)[i]) by {
        if i < a.len() {
            assert((a + b)[i] == a[i]);
        } else {
            assert((a + b)[i] == b[i - a.len()]);
        }
    }
}

proof fn lemma_mentions_well_formed(t: Seq<char>, rs: Seq<(Seq<char>, Seq<char>)>)
    ensures
        all_well_formed(mentions(t, rs)),
    decreases t.len(),
{
    match find_from(t, "[["@, 0) {
        Some(st) => match find_from(t, "]]"@, st) {
            Some(en) => if 0 <= st && st + 2 <= en && en + 2 <= t.len() {
                lemma_mentions_well_formed(t.skip(en + 2), rs);
                let a = if st > 0 {
                    seq![text_node(t.take(st))]
                } else {
                    seq![]
                };
                let b = seq![mention_node(rs, t.subrange(st + 2, en))];
                assert(all_well_formed(a));
                assert(all_well_formed(b));
                lemma_concat_well_formed(a, b);
                lemma_concat_well_formed(a + b, mentions(t.skip(en + 2), rs));
            },
            None => {},
        },
        None => {},
    }
}

proof fn lemma_inline_well_formed(t: MdTree, rs: Seq<(Seq<char>, Seq<char>)>)
    ensures
        all_well_formed(conv_inline(t, rs)),
    decreases t, 1int,
{
    let n = t.name;
    if n == "text"@ {
        lemma_mentions_well_formed(t.text, rs);
    } else if n == "softbreak"@ || n == "linebreak"@ || n == "code"@ {
    } else if is_marked(n) {
        let ys = conv_inlines(t, t.children.len() as int, rs);
        lemma_inlines_well_formed(t, t.children.len() as int, rs);
        let m = mark_for(t);
        assert forall|i: int| 0 <= i < ys.len() implies #[trigger] well_formed_object(add_marks(ys, m)[i]) by {
            assert(well_formed_object(ys[i]));
            if get_str(ys[i], "type"@) == Some("text"@) {
                lemma_set_then_get(ys[i], "marks"@, Json::Array(marks_of(ys[i]).push(m)));
            }
        }
    }
}

proof fn lemma_inlines_well_formed(t: MdTree, k: int, rs: Seq<(Seq<char>, Seq<char>)>)
    ensures
        all_well_formed(conv_inlines(t, k, rs)),
    decreases t, 0int, k,
{
    if k > 0 && k <= t.children.len() {
        lemma_inlines_well_formed(t, k - 1, rs);
        lemma_inline_well_formed(t.children[k - 1], rs);
        lemma_concat_well_formed(conv_inlines(t, k - 1, rs), conv_inline(t.children[k - 1], rs));
    }
}

/// A link element gives inline nodes whose text nodes carry, as their last
/// mark, the link to the element's destination: `{"type": "link", "attrs":
/// {"href": destination}}`.
pub proof fn law_link_keeps_destination(t: MdTree, rs: Seq<(Seq<char>, Seq<char>)>, u: Seq<char>)
    requires
        t.name == "link"@,
        attr_of(t, "destination"@) == Some(u),
    ensures
        forall|i: int|
            0 <= i < conv_inline(t, rs).len() && get_str(#[trigger] conv_inline(t, rs)[i], "type"@) == Some(
                "text"@,
            ) ==> marks_of(conv_inline(t, rs)[i]).len() > 0 && marks_of(conv_inline(t, rs)[i]).last()
                == Json::Object(
                seq!["type"@, "attrs"@],
                seq![Json::Str("link"@), Json::Object(seq!["href"@], seq![Json::Str(u)])],
            ),
{
    reveal_strlit("link");
    reveal_strlit("text");
    reveal_strlit("softbreak");
    reveal_strlit("linebreak");
    reveal_strlit("code");
    reveal_strlit("emph");
    reveal_strlit("strong");
    reveal_strlit("strikethrough");
    assert("link"@.len() == 4 && "softbreak"@.len() == 9 && "linebreak"@.len() == 9
        && "strong"@.len() == 6 && "strikethrough"@.len() == 13);
    assert("link"@[0] != "text"@[0] && "link"@[0] != "code"@[0] && "link"@[0] != "emph"@[0]);
    assert(t.name != "text"@ && t.name != "softbreak"@ && t.name != "linebreak"@ && t.name != "code"@);
    assert(t.name != "emph"@ && t.name != "strong"@ && t.name != "strikethrough"@);
    let m = link_mark(u);
    assert(m == mark_for(t));
    let lit = Json::Object(
        seq!["type"@, "attrs"@],
        seq![Json::Str("link"@), Json::Object(seq!["href"@], seq![Json::Str(u)])],
    );
    assert(Seq::<Seq<char>>::empty().push("type"@).push("attrs"@) =~= seq!["type"@, "attrs"@]);
    assert(Seq::<Seq<char>>::empty().push("href"@) =~= seq!["href"@]);
    assert(Seq::<Json>::empty().push(Json::Str(u)) =~= seq![Json::Str(u)]);
    assert(obj1("href"@, Json::Str(u)) == Json::Object(seq!["href"@], seq![Json::Str(u)]));
    assert(Seq::<Json>::empty().push(Json::Str("link"@)).push(obj1("href"@, Json::Str(u))) =~= seq![
        Json::Str("link"@),
        obj1("href"@, Json::Str(u)),
    ]);
    assert(m == lit);
    let ys = conv_inlines(t, t.children.len() as int, rs);
    lemma_inlines_well_formed(t, t.children.len() as int, rs);
    assert(conv_inline(t, rs) == add_marks(ys, m));
    assert forall|i: int|
        0 <= i < conv_inline(t, rs).len() && get_str(#[trigger] conv_inline(t, rs)[i], "type"@) == Some(
            "text"@,
        ) implies marks_of(conv_inline(t, rs)[i]).len() > 0 && marks_of(conv_inline(t, rs)[i]).last()
        == lit by {
        let y = ys[i];
        let x = conv_inline(t, rs)[i];
        assert(x == with_mark(y, m));
        assert(well_formed_object(y));
        if get_str(y, "type"@) == Some("text"@) {
            let arr = Json::Array(marks_of(y).push(m));
            lemma_set_then_get(y, "marks"@, arr);
            assert(marks_of(x) == marks_of(y).push(m));
        }
    }
}

/// Emphasis, strong emphasis and strikethrough give inline nodes whose text
/// nodes carry, as their last mark, `em`, `strong` and `strike`.
pub proof fn law_emphasis_marks(t: MdTree, rs: Seq<(Seq<char>, Seq<char>)>, mark: Seq<char>)
    requires
        (t.name == "emph"@ && mark == "em"@) || (t.name == "strong"@ && mark == "strong"@) || (t.name
            == "strikethrough"@ && mark == "strike"@),
    ensures
        forall|i: int|
            0 <= i < conv_inline(t, rs).len() && get_str(#[trigger] conv_inline(t, rs)[i], "type"@) == Some(
                "text"@,
            ) ==> marks_of(conv_inline(t, rs)[i]).len() > 0 && marks_of(conv_inline(t, rs)[i]).last()
                == Json::Object(seq!["type"@], seq![Json::Str(mark)]),
{
    reveal_strlit("text");
    reveal_strlit("softbreak");
    reveal_strlit("linebreak");
    reveal_strlit("code");
    reveal_strlit("emph");
    reveal_strlit("strong");
    reveal_strlit("strikethrough");
    assert("emph"@.len() == 4 && "strong"@.len() == 6 && "strikethrough"@.len() == 13
        && "softbreak"@.len() == 9 && "linebreak"@.len() == 9 && "code"@.len() == 4 && "text"@.len() == 4);
    assert("emph"@[0] != "text"@[0] && "emph"@[0] != "code"@[0]);
    assert(t.name != "text"@ && t.name != "softbreak"@ && t.name != "linebreak"@ && t.name != "code"@);
    assert(is_marked(t.name));
    let m = mark_for(t);
    let lit = Json::Object(seq!["type"@], seq![Json::Str(mark)]);
    assert(Seq::<Seq<char>>::empty().push("type"@) =~= seq!["type"@]);
    assert(Seq::<Json>::empty().push(Json::Str(mark)) =~= seq![Json::Str(mark)]);
    assert(m == lit);
    let ys = conv_inlines(t, t.children.len() as int, rs);
    lemma_inlines_well_formed(t, t.children.len() as int, rs);
    assert(conv_inline(t, rs) == add_marks(ys, m));
    assert forall|i: int|
        0 <= i < conv_inline(t, rs).len() && get_str(#[trigger] conv_inline(t, rs)[i], "type"@) == Some(
            "text"@,
        ) implies marks_of(conv_inline(t, rs)[i]).len() > 0 && marks_of(conv_inline(t, rs)[i]).last()
        == lit by {
        let y = ys[i];
        let x = conv_inline(t, rs)[i];
        assert(x == with_mark(y, m));
        assert(well_formed_object(y));
        if get_str(y, "type"@) == Some("text"@) {
            let arr = Json::Array(marks_of(y).push(m));
            lemma_set_then_get(y, "marks"@, arr);
            assert(marks_of(x) == marks_of(y).push(m));
        }
    }
}

/// The first `k` children of an element as inline nodes.
pub open spec fn conv_inlines(t: MdTree, k: int, rs: Seq<(Seq<char>, Seq<char>)>) -> Seq<Json>
    decreases t, 0int, k,
{
    if k <= 0 || k > t.children.len() {
        seq![]
    } else {
        conv_inlines(t, k - 1, rs) + conv_inline(t.children[k - 1], rs)
    }
}

/// All children of an element as inline nodes.
pub open spec fn inlines_of(t: MdTree, rs: Seq<(Seq<char>, Seq<char>)>) -> Seq<Json> {
    conv_inlines(t, t.children.len() as int, rs)
}

fn is_named(n: &MdNode, s: &str) -> (b: bool)
    ensures
        b == (n@.name == s@),
{
    proof {
        lemma_node_view(*n);
    }
    crate::text::str_eq(n.name.as_str(), s)
}

fn attr_exec(n: &MdNode, k: &str) -> (r: Option<String>)
    ensures
        crate::json::opt_str(r) == attr_of(n@, k@),
{
    proof {
        lemma_node_view(*n);
    }
    let ghost ks = n@.akeys;
    proof { lemma_key_index(ks, k@, 0); }
    let mut i: usize = 0;
    while i < n.attrs.len()
        invariant
            i <= n.attrs.len(),
            ks == n@.akeys,
            ks == crate::prosemirror::md_xml::akeys_of(n.attrs@),
            n@.avals == crate::prosemirror::md_xml::avals_of(n.attrs@),
            key_index(ks, k@, 0) == key_index(ks, k@, i as int),
        decreases n.attrs.len() - i,
    {
        if crate::text::str_eq(n.attrs[i].0.as_str(), k) {
            assert(key_index(ks, k@, i as int) == i);
            return Some(n.attrs[i].1.clone());
        }
        i = i + 1;
    }
    None
}

fn attr_or_empty_exec(n: &MdNode, k: &str) -> (r: String)
    ensures
        r@ == attr_or_empty(n@, k@),
{
    match attr_exec(n, k) {
        Some(v) => v,
        None => String::new(),
    }
}

fn mark_for_exec(n: &MdNode) -> (r: JsonValue)
    ensures
        r@ == mark_for(n@),
{
    if is_named(n, "emph") {
        typed_exec("em")
    } else if is_named(n, "strong") {
        typed_exec("strong")
    } else if is_named(n, "strikethrough") {
        typed_exec("strike")
    } else {
        let href = attr_or_empty_exec(n, "destination");
        typed_with_exec("link", "attrs", obj1_exec("href", jstring(href)))
    }
}

fn code_node_exec(lit: String) -> (r: JsonValue)
    ensures
        r@ == code_node(lit@),
{
    typed_with2_exec("text", "text", jstring(lit), "marks", array1(typed_exec("code")))
}

fn image_node_exec(url: String) -> (r: JsonValue)
    ensures
        r@ == image_node(url@),
{
    let media = typed_with_exec(
        "media",
        "attrs",
        obj2_exec("url", jstring(url), "type", jstr("external")),
    );
    typed_with_exec("mediaSingle", "content", array1(media))
}

/// An inline element as ProseMirror inline nodes.
pub fn convert_inline_node(n: &MdNode, resources: &Vec<Resource>) -> (r: Vec<JsonValue>)
    ensures
        jsons(r@) == conv_inline(n@, named(resources@)),
    decreases n, 1int,
{
    proof {
        lemma_node_view(*n);
    }
    let mut r: Vec<JsonValue> = Vec::new();
    if is_named(n, "text") {
        return convert_text_with_mentions(n.text.as_str(), resources);
    } else if is_named(n, "softbreak") || is_named(n, "linebreak") {
        push_json(&mut r, typed_exec("hardBreak"));
    } else if is_named(n, "code") {
        push_json(&mut r, code_node_exec(n.text.clone()));
    } else if is_named(n, "emph") || is_named(n, "strong") || is_named(n, "strikethrough")
        || is_named(n, "link") {
        let inl = convert_inline_children(n, resources);
        let m = mark_for_exec(n);
        return add_mark_to_nodes(inl, &m);
    } else if is_named(n, "image") {
        push_json(&mut r, image_node_exec(attr_or_empty_exec(n, "destination")));
    } else if is_named(n, "html_inline") {
        if !crate::text::str_is_empty(n.text.as_str()) {
            push_json(&mut r, text_node_exec(n.text.clone()));
        }
    }
    assert(jsons(r@) =~= conv_inline(n@, named(resources@)));
    r
}

/// The children of an element as inline nodes.
pub fn convert_inline_children(n: &MdNode, resources: &Vec<Resource>) -> (r: Vec<JsonValue>)
    ensures
        jsons(r@) == inlines_of(n@, named(resources@)),
    decreases n, 0int, 0int,
{
    proof {
        lemma_node_view(*n);
    }
    let mut out: Vec<JsonValue> = Vec::new();
    let mut i: usize = 0;
    assert(jsons(out@) =~= conv_inlines(n@, 0, named(resources@)));
    while i < n.children.len()
        invariant
            i <= n.children.len(),
            n@.children == kids_of(n.children@),
            jsons(out@) == conv_inlines(n@, i as int, named(resources@)),
        decreases n.children.len() - i,
    {
        let part = convert_inline_node(&n.children[i], resources);
        append_all(&mut out, part);
        i = i + 1;
    }
    out
}

// ---------------------------------------------------------------------------
// Block nodes
// ---------------------------------------------------------------------------

/// The node types that a task item may hold directly.
pub open spec fn is_inline_type_spec(t: Seq<char>) -> bool {
    t == "text"@ || t == "hardBreak"@ || t == "mention"@ || t == "inlineExtension"@
}

/// Whether a ProseMirror node type is inline content for Legend Keeper.
pub fn is_inline_type(node_type: &str) -> (b: bool)
    ensures
        b == is_inline_type_spec(node_type@),
{
    crate::text::str_eq(node_type, "text") || crate::text::str_eq(node_type, "hardBreak")
        || crate::text::str_eq(node_type, "mention") || crate::text::str_eq(
        node_type,
        "inlineExtension",
    )
}

pub open spec fn heading_node(level: Seq<char>, inl: Seq<Json>) -> Json {
    let attrs = obj1("level"@, Json::Number(level));
    if inl.len() == 0 {
        typed_with("heading"@, "attrs"@, attrs)
    } else {
        typed_with2("heading"@, "attrs"@, attrs, "content"@, Json::Array(inl))
    }
}

/// A list of task items is a task list; else the list's own type decides.
pub open spec fn list_type(t: MdTree) -> Seq<char> {
    if exists|i: int| 0 <= i < t.children.len() && (#[trigger] t.children[i]).name == "taskitem"@ {
        "taskList"@
    } else if attr_of(t, "type"@) == Some("ordered"@) {
        "orderedList"@
    } else {
        "bulletList"@
    }
}

pub open spec fn task_state(t: MdTree) -> Seq<char> {
    if attr_of(t, "completed"@) == Some("true"@) {
        "DONE"@
    } else {
        "TODO"@
    }
}

/// Whether a node is of one of the types that a task item may hold.
pub open spec fn is_inline_json(c: Json) -> bool {
    match get_str(c, "type"@) {
        Some(ty) => is_inline_type_spec(ty),
        None => false,
    }
}

/// The nodes of `a` that a task item may hold, in order.
pub open spec fn inline_only(a: Seq<Json>) -> Seq<Json>
    decreases a.len(),
{
    if a.len() == 0 {
        seq![]
    } else if is_inline_json(a.last()) {
        inline_only(a.drop_last()).push(a.last())
    } else {
        inline_only(a.drop_last())
    }
}

/// What a converted child of a task item gives it: a paragraph those of its
/// nodes that are inline, an inline node itself, anything else nothing.
pub open spec fn inline_piece(c: Json) -> Seq<Json> {
    match get_str(c, "type"@) {
        Some(ty) => if ty == "paragraph"@ {
            match json_get(c, "content"@) {
                Some(Json::Array(a)) => inline_only(a),
                _ => seq![],
            }
        } else if is_inline_type_spec(ty) {
            seq![c]
        } else {
            seq![]
        },
        None => seq![],
    }
}

pub open spec fn task_inlines(kids: Seq<Json>) -> Seq<Json>
    decreases kids.len(),
{
    if kids.len() == 0 {
        seq![]
    } else {
        task_inlines(kids.drop_last()) + inline_piece(kids.last())
    }
}

pub open spec fn task_node(state: Seq<char>, inl: Seq<Json>) -> Json {
    let attrs = obj1("state"@, Json::Str(state));
    if inl.len() == 0 {
        typed_with("taskItem"@, "attrs"@, attrs)
    } else {
        typed_with2("taskItem"@, "attrs"@, attrs, "content"@, Json::Array(inl))
    }
}

/// `s` without its trailing newlines.
pub open spec fn trim_end_nl(s: Seq<char>) -> Seq<char>
    decreases s.len(),
{
    if s.len() > 0 && s.last() == '\n' {
        trim_end_nl(s.drop_last())
    } else {
        s
    }
}

pub open spec fn code_block_node(info: Seq<char>, lit: Seq<char>) -> Json {
    let lang = obj1("language"@, Json::Str(info));
    let content = Json::Array(seq![text_node(trim_end_nl(lit))]);
    if info.len() > 0 && lit.len() > 0 {
        typed_with2("codeBlock"@, "attrs"@, lang, "content"@, content)
    } else if info.len() > 0 {
        typed_with("codeBlock"@, "attrs"@, lang)
    } else if lit.len() > 0 {
        typed_with("codeBlock"@, "content"@, content)
    } else {
        typed("codeBlock"@)
    }
}

pub open spec fn cell_node(c: MdTree, header: bool, rs: Seq<(Seq<char>, Seq<char>)>) -> Json {
    typed_with(
        if header {
            "tableHeader"@
        } else {
            "tableCell"@
        },
        "content"@,
        Json::Array(seq![para(inlines_of(c, rs))]),
    )
}

pub open spec fn row_node(t: MdTree, header: bool, rs: Seq<(Seq<char>, Seq<char>)>) -> Json {
    block("tableRow"@, Seq::new(t.children.len(), |i: int| cell_node(t.children[i], header, rs)))
}

pub open spec fn opt_seq(o: Option<Json>) -> Seq<Json> {
    match o {
        Some(j) => seq![j],
        None => seq![],
    }
}

/// A block element as a ProseMirror node, if it gives one.
pub open spec fn conv_block(t: MdTree, rs: Seq<(Seq<char>, Seq<char>)>) -> Option<Json>
    decreases t, 1int, 0int,
{
    let n = t.name;
    if n == "paragraph"@ {
        Some(para(inlines_of(t, rs)))
    } else if n == "heading"@ {
        Some(heading_node(attr_or_empty(t, "level"@), inlines_of(t, rs)))
    } else if n == "text"@ {
        Some(Json::Array(mentions(t.text, rs)))
    } else if n == "softbreak"@ || n == "linebreak"@ {
        Some(hard_break())
    } else if n == "code"@ {
        Some(code_node(t.text))
    } else if is_marked(n) {
        Some(Json::Array(add_marks(inlines_of(t, rs), mark_for(t))))
    } else if n == "image"@ {
        Some(image_node(attr_or_empty(t, "destination"@)))
    } else if n == "list"@ {
        Some(block(list_type(t), conv_blocks(t, t.children.len() as int, rs)))
    } else if n == "item"@ {
        Some(block("listItem"@, conv_blocks(t, t.children.len() as int, rs)))
    } else if n == "taskitem"@ {
        Some(task_node(task_state(t), task_inlines(conv_blocks(t, t.children.len() as int, rs))))
    } else if n == "block_quote"@ {
        Some(block("blockquote"@, conv_blocks(t, t.children.len() as int, rs)))
    } else if n == "code_block"@ {
        Some(code_block_node(attr_or_empty(t, "info"@), t.text))
    } else if n == "thematic_break"@ {
        Some(typed("rule"@))
    } else if n == "table"@ {
        Some(block("table"@, conv_rows(t, t.children.len() as int, rs)))
    } else if n == "table_row"@ {
        Some(row_node(t, false, rs))
    } else if n == "html_inline"@ {
        if t.text.len() > 0 {
            Some(text_node(t.text))
        } else {
            None
        }
    } else if n == "html_block"@ {
        if t.text.len() > 0 {
            Some(typed_with("paragraph"@, "content"@, Json::Array(seq![text_node(trim_spec(t.text))])))
        } else {
            None
        }
    } else if n == "document"@ {
        Some(typed_with("doc"@, "content"@, Json::Array(conv_blocks(t, t.children.len() as int, rs))))
    } else {
        None
    }
}

/// The first `k` children of an element as block nodes.
pub open spec fn conv_blocks(t: MdTree, k: int, rs: Seq<(Seq<char>, Seq<char>)>) -> Seq<Json>
    decreases t, 0int, k,
{
    if k <= 0 || k > t.children.len() {
        seq![]
    } else {
        conv_blocks(t, k - 1, rs) + opt_seq(conv_block(t.children[k - 1], rs))
    }
}

/// The first `k` rows of a table; its first row is its header row.
pub open spec fn conv_rows(t: MdTree, k: int, rs: Seq<(Seq<char>, Seq<char>)>) -> Seq<Json>
    decreases t, 0int, k,
{
    if k <= 0 || k > t.children.len() {
        seq![]
    } else {
        let c = t.children[k - 1];
        conv_rows(t, k - 1, rs) + opt_seq(
            if c.name == "table_row"@ {
                Some(row_node(c, k == 1, rs))
            } else {
                conv_block(c, rs)
            },
        )
    }
}

fn inline_only_exec(a: &Vec<JsonValue>) -> (r: Vec<JsonValue>)
    ensures
        jsons(r@) == inline_only(jsons(a@)),
{
    let ghost av = jsons(a@);
    let mut out: Vec<JsonValue> = Vec::new();
    let mut i: usize = 0;
    assert(av.take(0) =~= Seq::<Json>::empty());
    while i < a.len()
        invariant
            i <= a.len(),
            av == jsons(a@),
            jsons(out@) == inline_only(av.take(i as int)),
        decreases a.len() - i,
    {
        let c = &a[i];
        assert(av.take(i + 1).drop_last() =~= av.take(i as int));
        assert(av.take(i + 1).last() == c@);
        match c.get_str("type") {
            Some(ty) => {
                if is_inline_type(ty.as_str()) {
                    push_json(&mut out, c.deep_clone());
                }
            },
            None => {},
        }
        i = i + 1;
    }
    assert(av.take(a.len() as int) =~= av);
    out
}

fn task_inlines_exec(kids: Vec<JsonValue>) -> (r: Vec<JsonValue>)
    ensures
        jsons(r@) == task_inlines(jsons(kids@)),
{
    let ghost ks = jsons(kids@);
    let mut out: Vec<JsonValue> = Vec::new();
    let mut i: usize = 0;
    assert(ks.take(0) =~= Seq::<Json>::empty());
    while i < kids.len()
        invariant
            i <= kids.len(),
            ks == jsons(kids@),
            jsons(out@) == task_inlines(ks.take(i as int)),
        decreases kids.len() - i,
    {
        let c = &kids[i];
        assert(ks.take(i + 1).drop_last() =~= ks.take(i as int));
        assert(ks.take(i + 1).last() == c@);
        match c.get_str("type") {
            Some(ty) => {
                if crate::text::str_eq(ty.as_str(), "paragraph") {
                    match c.get("content") {
                        Some(JsonValue::Array(a)) => {
                            proof {
                                lemma_array_view(*a);
                            }
                            append_all(&mut out, inline_only_exec(a));
                        },
                        _ => {},
                    }
                } else if is_inline_type(ty.as_str()) {
                    push_json(&mut out, c.deep_clone());
                }
            },
            None => {},
        }
        i = i + 1;
    }
    assert(ks.take(kids.len() as int) =~= ks);
    out
}

fn trim_end_nl_exec(s: &str) -> (r: String)
    ensures
        r@ == trim_end_nl(s@),
{
    let cs = chars_of(s);
    let mut n = cs.len();
    assert(cs@.take(n as int) =~= cs@);
    while n > 0 && cs[n - 1] == '\n'
        invariant
            n <= cs.len(),
            cs@ == s@,
            trim_end_nl(s@) == trim_end_nl(cs@.take(n as int)),
        decreases n,
    {
        assert(cs@.take(n as int).drop_last() =~= cs@.take(n - 1));
        n = n - 1;
    }
    string_of_range(&cs, 0, n)
}

fn cell_exec(c: &MdNode, header: bool, resources: &Vec<Resource>) -> (r: JsonValue)
    ensures
        r@ == cell_node(c@, header, named(resources@)),
{
    let inl = convert_inline_children(c, resources);
    let p = para_exec(inl);
    typed_with_exec(
        if header {
            "tableHeader"
        } else {
            "tableCell"
        },
        "content",
        array1(p),
    )
}

fn row_exec(t: &MdNode, header: bool, resources: &Vec<Resource>) -> (r: JsonValue)
    ensures
        r@ == row_node(t@, header, named(resources@)),
{
    proof {
        lemma_node_view(*t);
    }
    let ghost want = Seq::new(
        t@.children.len(),
        |i: int| cell_node(t@.children[i], header, named(resources@)),
    );
    let mut cells: Vec<JsonValue> = Vec::new();
    let mut i: usize = 0;
    while i < t.children.len()
        invariant
            i <= t.children.len(),
            t@.children == kids_of(t.children@),
            want == Seq::new(
                t@.children.len(),
                |i: int| cell_node(t@.children[i], header, named(resources@)),
            ),
            jsons(cells@) == want.take(i as int),
        decreases t.children.len() - i,
    {
        push_json(&mut cells, cell_exec(&t.children[i], header, resources));
        assert(want.take(i + 1) =~= want.take(i as int).push(want[i as int]));
        i = i + 1;
    }
    assert(want.take(t.children.len() as int) =~= want);
    block_exec("tableRow", cells)
}

fn code_block_exec(info: String, lit: &str) -> (r: JsonValue)
    ensures
        r@ == code_block_node(info@, lit@),
{
    let has_info = !crate::text::str_is_empty(info.as_str());
    let has_lit = !crate::text::str_is_empty(lit);
    if has_info && has_lit {
        let lang = obj1_exec("language", jstring(info));
        let content = array1(text_node_exec(trim_end_nl_exec(lit)));
        typed_with2_exec("codeBlock", "attrs", lang, "content", content)
    } else if has_info {
        typed_with_exec("codeBlock", "attrs", obj1_exec("language", jstring(info)))
    } else if has_lit {
        typed_with_exec("codeBlock", "content", array1(text_node_exec(trim_end_nl_exec(lit))))
    } else {
        typed_exec("codeBlock")
    }
}

fn list_type_exec(t: &MdNode) -> (r: &'static str)
    ensures
        r@ == list_type(t@),
{
    proof {
        lemma_node_view(*t);
    }
    let mut i: usize = 0;
    while i < t.children.len()
        invariant
            i <= t.children.len(),
            t@.children == kids_of(t.children@),
            forall|j: int| 0 <= j < i ==> (#[trigger] t@.children[j]).name != "taskitem"@,
        decreases t.children.len() - i,
    {
        if is_named(&t.children[i], "taskitem") {
            assert(t@.children[i as int].name == "taskitem"@);
            return "taskList";
        }
        i = i + 1;
    }
    match attr_exec(t, "type") {
        Some(v) => if crate::text::str_eq(v.as_str(), "ordered") {
            "orderedList"
        } else {
            "bulletList"
        },
        None => "bulletList",
    }
}

/// A block element as a ProseMirror node, if it gives one.
pub fn convert_node(n: &MdNode, resources: &Vec<Resource>) -> (r: Option<JsonValue>)
    ensures
        crate::json::opt_json(r) == conv_block(n@, named(resources@)),
    decreases n, 1int, 0int,
{
    proof {
        lemma_node_view(*n);
    }
    if is_named(n, "paragraph") {
        Some(para_exec(convert_inline_children(n, resources)))
    } else if is_named(n, "heading") {
        let level = attr_or_empty_exec(n, "level");
        let inl = convert_inline_children(n, resources);
        let attrs = obj1_exec("level", JsonValue::Number(level));
        if inl.len() == 0 {
            Some(typed_with_exec("heading", "attrs", attrs))
        } else {
            Some(typed_with2_exec("heading", "attrs", attrs, "content", array_of(inl)))
        }
    } else if is_named(n, "text") {
        Some(array_of(convert_text_with_mentions(n.text.as_str(), resources)))
    } else if is_named(n, "softbreak") || is_named(n, "linebreak") {
        Some(typed_exec("hardBreak"))
    } else if is_named(n, "code") {
        Some(code_node_exec(n.text.clone()))
    } else if is_named(n, "emph") || is_named(n, "strong") || is_named(n, "strikethrough")
        || is_named(n, "link") {
        let inl = convert_inline_children(n, resources);
        let m = mark_for_exec(n);
        Some(array_of(add_mark_to_nodes(inl, &m)))
    } else if is_named(n, "image") {
        Some(image_node_exec(attr_or_empty_exec(n, "destination")))
    } else if is_named(n, "list") {
        let lt = list_type_exec(n);
        Some(block_exec(lt, convert_children(n, resources)))
    } else if is_named(n, "item") {
        Some(block_exec("listItem", convert_children(n, resources)))
    } else if is_named(n, "taskitem") {
        let done = match attr_exec(n, "completed") {
            Some(v) => crate::text::str_eq(v.as_str(), "true"),
            None => false,
        };
        let state = if done {
            "DONE"
        } else {
            "TODO"
        };
        let inl = task_inlines_exec(convert_children(n, resources));
        let attrs = obj1_exec("state", jstr(state));
        if inl.len() == 0 {
            Some(typed_with_exec("taskItem", "attrs", attrs))
        } else {
            Some(typed_with2_exec("taskItem", "attrs", attrs, "content", array_of(inl)))
        }
    } else if is_named(n, "block_quote") {
        Some(block_exec("blockquote", convert_children(n, resources)))
    } else if is_named(n, "code_block") {
        Some(code_block_exec(attr_or_empty_exec(n, "info"), n.text.as_str()))
    } else if is_named(n, "thematic_break") {
        Some(typed_exec("rule"))
    } else if is_named(n, "table") {
        Some(block_exec("table", convert_rows(n, resources)))
    } else if is_named(n, "table_row") {
        Some(row_exec(n, false, resources))
    } else if is_named(n, "html_inline") {
        if !crate::text::str_is_empty(n.text.as_str()) {
            Some(text_node_exec(n.text.clone()))
        } else {
            None
        }
    } else if is_named(n, "html_block") {
        if !crate::text::str_is_empty(n.text.as_str()) {
            let t = crate::text::trim_str(n.text.as_str());
            Some(typed_with_exec("paragraph", "content", array1(text_node_exec(t))))
        } else {
            None
        }
    } else if is_named(n, "document") {
        Some(typed_with_exec("doc", "content", array_of(convert_children(n, resources))))
    } else {
        None
    }
}

/// The children of an element as block nodes.
pub fn convert_children(n: &MdNode, resources: &Vec<Resource>) -> (r: Vec<JsonValue>)
    ensures
        jsons(r@) == conv_blocks(n@, n@.children.len() as int, named(resources@)),
    decreases n, 0int, 0int,
{
    proof {
        lemma_node_view(*n);
    }
    let mut out: Vec<JsonValue> = Vec::new();
    let mut i: usize = 0;
    assert(jsons(out@) =~= conv_blocks(n@, 0, named(resources@)));
    while i < n.children.len()
        invariant
            i <= n.children.len(),
            n@.children == kids_of(n.children@),
            jsons(out@) == conv_blocks(n@, i as int, named(resources@)),
        decreases n.children.len() - i,
    {
        match convert_node(&n.children[i], resources) {
            Some(x) => push_json(&mut out, x),
            None => {},
        }
        assert(jsons(out@) =~= conv_blocks(n@, i + 1, named(resources@)));
        i = i + 1;
    }
    out
}

/// The rows of a table; its first row is its header row.
fn convert_rows(n: &MdNode, resources: &Vec<Resource>) -> (r: Vec<JsonValue>)
    ensures
        jsons(r@) == conv_rows(n@, n@.children.len() as int, named(resources@)),
    decreases n, 0int, 0int,
{
    proof {
        lemma_node_view(*n);
    }
    let mut out: Vec<JsonValue> = Vec::new();
    let mut i: usize = 0;
    assert(jsons(out@) =~= conv_rows(n@, 0, named(resources@)));
    while i < n.children.len()
        invariant
            i <= n.children.len(),
            n@.children == kids_of(n.children@),
            jsons(out@) == conv_rows(n@, i as int, named(resources@)),
        decreases n.children.len() - i,
    {
        let c = &n.children[i];
        if is_named(c, "table_row") {
            push_json(&mut out, row_exec(c, i == 0, resources));
        } else {
            match convert_node(c, resources) {
                Some(x) => push_json(&mut out, x),
                None => {},
            }
        }
        assert(jsons(out@) =~= conv_rows(n@, i + 1, named(resources@)));
        i = i + 1;
    }
    out
}

// ---------------------------------------------------------------------------
// Tables without a header separator
// ---------------------------------------------------------------------------

pub open spec fn table_models(ts: Seq<ExtractedTable>) -> Seq<(Seq<char>, Seq<Seq<Seq<char>>>)> {
    Seq::new(ts.len(), |i: int| table_model(ts[i]))
}

pub open spec fn placeholders(tables: Seq<(Seq<char>, Seq<Seq<Seq<char>>>)>) -> Seq<Seq<char>> {
    Seq::new(tables.len(), |i: int| tables[i].0)
}

/// The table whose placeholder a node is: a paragraph holding one node whose
/// trimmed text is the placeholder.
pub open spec fn placeholder_index(
    node: Json,
    tables: Seq<(Seq<char>, Seq<Seq<Seq<char>>>)>,
) -> Option<int> {
    if get_str(node, "type"@) == Some("paragraph"@) {
        match json_get(node, "content"@) {
            Some(Json::Array(a)) => if a.len() == 1 {
                match get_str(a[0], "text"@) {
                    Some(txt) => {
                        let k = key_index(placeholders(tables), trim_spec(txt), 0);
                        if 0 <= k < tables.len() {
                            Some(k)
                        } else {
                            None
                        }
                    },
                    None => None,
                }
            } else {
                None
            },
            _ => None,
        }
    } else {
        None
    }
}

pub open spec fn header_cell(text: Seq<char>, first: bool, rs: Seq<(Seq<char>, Seq<char>)>) -> Json {
    typed_with(
        if first {
            "tableHeader"@
        } else {
            "tableCell"@
        },
        "content"@,
        Json::Array(seq![para(mentions(text, rs))]),
    )
}

pub open spec fn header_row(row: Seq<Seq<char>>, rs: Seq<(Seq<char>, Seq<char>)>) -> Json {
    typed_with(
        "tableRow"@,
        "content"@,
        Json::Array(Seq::new(row.len(), |c: int| header_cell(row[c], c == 0, rs))),
    )
}

/// A table whose first column is its header.
pub open spec fn header_table(rows: Seq<Seq<Seq<char>>>, rs: Seq<(Seq<char>, Seq<char>)>) -> Json {
    typed_with(
        "table"@,
        "content"@,
        Json::Array(Seq::new(rows.len(), |r: int| header_row(rows[r], rs))),
    )
}

pub open spec fn replace_placeholders(
    cs: Seq<Json>,
    tables: Seq<(Seq<char>, Seq<Seq<Seq<char>>>)>,
    rs: Seq<(Seq<char>, Seq<char>)>,
) -> Seq<Json> {
    Seq::new(
        cs.len(),
        |i: int|
            match placeholder_index(cs[i], tables) {
                Some(k) => header_table(tables[k].1, rs),
                None => cs[i],
            },
    )
}

/// The document of a parsed markdown tree, with its placeholders replaced
/// by their tables.
pub open spec fn pm_document(
    tree: Option<MdTree>,
    tables: Seq<(Seq<char>, Seq<Seq<Seq<char>>>)>,
    rs: Seq<(Seq<char>, Seq<char>)>,
) -> Json {
    let blocks = match tree {
        Some(t) => conv_blocks(t, t.children.len() as int, rs),
        None => seq![],
    };
    typed_with("doc"@, "content"@, Json::Array(replace_placeholders(blocks, tables, rs)))
}

fn placeholder_index_exec(node: &JsonValue, tables: &Vec<ExtractedTable>) -> (r: Option<usize>)
    ensures
        match placeholder_index(node@, table_models(tables@)) {
            Some(k) => r == Some(k as usize),
            None => r is None,
        },
{
    let is_para = match node.get_str("type") {
        Some(t) => crate::text::str_eq(t.as_str(), "paragraph"),
        None => false,
    };
    if !is_para {
        return None;
    }
    let a = match node.get("content") {
        Some(JsonValue::Array(a)) => a,
        _ => {
            return None;
        },
    };
    proof {
        lemma_array_view(*a);
    }
    if a.len() != 1 {
        return None;
    }
    let txt = match a[0].get_str("text") {
        Some(t) => crate::text::trim_str(t.as_str()),
        None => {
            return None;
        },
    };
    let ghost ph = placeholders(table_models(tables@));
    proof { lemma_key_index(ph, txt@, 0); }
    assert(a@[0]@ == jsons(a@)[0]);
    assert(placeholder_index(node@, table_models(tables@)) == (if 0 <= key_index(ph, txt@, 0)
        < tables.len() {
        Some(key_index(ph, txt@, 0))
    } else {
        None
    }));
    let mut k: usize = 0;
    while k < tables.len()
        invariant
            k <= tables.len(),
            ph == placeholders(table_models(tables@)),
            key_index(ph, txt@, 0) == key_index(ph, txt@, k as int),
            placeholder_index(node@, table_models(tables@)) == (if 0 <= key_index(ph, txt@, 0)
                < tables.len() {
                Some(key_index(ph, txt@, 0))
            } else {
                None
            }),
        decreases tables.len() - k,
    {
        if crate::text::str_eq(tables[k].placeholder.as_str(), txt.as_str()) {
            assert(ph[k as int] == txt@);
            assert(key_index(ph, txt@, k as int) == k);
            return Some(k);
        }
        k = k + 1;
    }
    None
}

fn header_row_exec(row: &Vec<String>, resources: &Vec<Resource>) -> (r: JsonValue)
    ensures
        r@ == header_row(Seq::new(row.len() as nat, |c: int| row@[c]@), named(resources@)),
{
    let ghost rv = Seq::new(row.len() as nat, |c: int| row@[c]@);
    let ghost want = Seq::new(rv.len(), |c: int| header_cell(rv[c], c == 0, named(resources@)));
    let mut cells: Vec<JsonValue> = Vec::new();
    let mut c: usize = 0;
    while c < row.len()
        invariant
            c <= row.len(),
            rv == Seq::new(row.len() as nat, |c: int| row@[c]@),
            want == Seq::new(rv.len(), |c: int| header_cell(rv[c], c == 0, named(resources@))),
            jsons(cells@) == want.take(c as int),
        decreases row.len() - c,
    {
        let inl = convert_text_with_mentions(row[c].as_str(), resources);
        let cell = typed_with_exec(
            if c == 0 {
                "tableHeader"
            } else {
                "tableCell"
            },
            "content",
            array1(para_exec(inl)),
        );
        push_json(&mut cells, cell);
        assert(want.take(c + 1) =~= want.take(c as int).push(want[c as int]));
        c = c + 1;
    }
    assert(want.take(row.len() as int) =~= want);
    typed_with_exec("tableRow", "content", array_of(cells))
}

/// A ProseMirror table whose first column holds header cells.
pub fn build_header_column_table(table: &ExtractedTable, resources: &Vec<Resource>) -> (r: JsonValue)
    ensures
        r@ == header_table(table_model(*table).1, named(resources@)),
{
    let ghost rows = table_model(*table).1;
    let ghost want = Seq::new(rows.len(), |r: int| header_row(rows[r], named(resources@)));
    let mut out: Vec<JsonValue> = Vec::new();
    let mut r: usize = 0;
    while r < table.rows.len()
        invariant
            r <= table.rows.len(),
            rows == table_model(*table).1,
            rows.len() == table.rows.len(),
            want == Seq::new(rows.len(), |r: int| header_row(rows[r], named(resources@))),
            jsons(out@) == want.take(r as int),
        decreases table.rows.len() - r,
    {
        let row = header_row_exec(&table.rows[r], resources);
        assert(rows[r as int] =~= Seq::new(
            table.rows@[r as int].len() as nat,
            |c: int| table.rows@[r as int]@[c]@,
        ));
        push_json(&mut out, row);
        assert(want.take(r + 1) =~= want.take(r as int).push(want[r as int]));
        r = r + 1;
    }
    assert(want.take(table.rows.len() as int) =~= want);
    typed_with_exec("table", "content", array_of(out))
}

/// Puts the tables in place of the paragraphs that hold their placeholders.
pub fn replace_table_placeholders(
    children: Vec<JsonValue>,
    tables: &Vec<ExtractedTable>,
    resources: &Vec<Resource>,
) -> (r: Vec<JsonValue>)
    ensures
        jsons(r@) == replace_placeholders(jsons(children@), table_models(tables@), named(resources@)),
{
    let ghost cs = jsons(children@);
    let ghost want = replace_placeholders(cs, table_models(tables@), named(resources@));
    let mut out: Vec<JsonValue> = Vec::new();
    let mut i: usize = 0;
    while i < children.len()
        invariant
            i <= children.len(),
            cs == jsons(children@),
            want == replace_placeholders(cs, table_models(tables@), named(resources@)),
            jsons(out@) == want.take(i as int),
        decreases children.len() - i,
    {
        assert(cs[i as int] == children@[i as int]@);
        let x = match placeholder_index_exec(&children[i], tables) {
            Some(k) => {
                let ghost pk = placeholder_index(cs[i as int], table_models(tables@));
                assert(pk is Some);
                assert(0 <= pk->0 < tables.len());
                assert(pk == Some(k as int));
                assert(table_models(tables@)[k as int] == table_model(tables@[k as int]));
                let t = build_header_column_table(&tables[k], resources);
                assert(want[i as int] == header_table(table_models(tables@)[k as int].1, named(resources@)));
                assert(t@ == want[i as int]);
                t
            },
            None => {
                let t = children[i].deep_clone();
                assert(t@ == want[i as int]);
                t
            },
        };
        push_json(&mut out, x);
        assert(want.take(i + 1) =~= want.take(i as int).push(want[i as int]));
        i = i + 1;
    }
    assert(want.take(children.len() as int) =~= want);
    out
}

/// The ProseMirror document of a CommonMark XML rendering, with the
/// placeholders of `tables` replaced by their tables.
pub fn from_commonmark_xml(xml: &str, tables: &Vec<ExtractedTable>, resources: &Vec<Resource>) -> (r:
    JsonValue)
    ensures
        r@ == pm_document(p_document(xml@), table_models(tables@), named(resources@)),
{
    let blocks = match parse_commonmark_xml(xml) {
        Some(t) => convert_children(&t, resources),
        None => Vec::new(),
    };
    assert(jsons(blocks@) == (match p_document(xml@) {
        Some(t) => conv_blocks(t, t.children.len() as int, named(resources@)),
        None => seq![],
    }));
    let children = replace_table_placeholders(blocks, tables, resources);
    typed_with_exec("doc", "content", array_of(children))
}

/// What comrak renders for `md` as CommonMark XML, with its table,
/// strikethrough, task list and autolink extensions on. That takes the whole
/// CommonMark and GFM grammar to state.
pub uninterp spec fn commonmark_xml(md: Seq<char>) -> Seq<char>;

/// `comrak::markdown_to_commonmark_xml`, with the extensions table,
/// strikethrough, tasklist and autolink enabled: the XML rendering of the
/// parsed document, named by `commonmark_xml`.
#[verifier::external_body]
fn markdown_to_xml(md: &str) -> (r: String)
    ensures
        r@ == commonmark_xml(md@),
{
    let mut options = comrak::Options::default();
    options.extension.table = true;
    options.extension.strikethrough = true;
    options.extension.tasklist = true;
    options.extension.autolink = true;
    comrak::markdown_to_commonmark_xml(md, &options)
}

/// The ProseMirror document of markdown text. Pipe-table runs without a
/// separator row become tables whose first column is the header; `[[Name]]`
/// mentions name the resource of that name.
pub open spec fn md_document(md: Seq<char>, rs: Seq<Resource>) -> Json {
    let ex = extract_tables_spec(md);
    pm_document(p_document(commonmark_xml(ex.0)), ex.1, named(rs))
}

/// Markdown to ProseMirror JSON; resources resolve `[[Name]]` mentions.
pub fn from_markdown(md: &str, resources: &Vec<Resource>) -> (r: JsonValue)
    ensures
        r@ == md_document(md@, resources@),
{
    let (md2, tables) = extract_headerless_tables(md);
    assert(table_models(tables@) =~= extract_tables_spec(md@).1);
    let xml = markdown_to_xml(md2.as_str());
    from_commonmark_xml(xml.as_str(), &tables, resources)
}
} // verus!
