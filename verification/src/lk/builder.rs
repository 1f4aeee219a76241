//! The world builder: an in-memory world assembled for export.

use vstd::prelude::*;
use crate::json::{Json, JsonValue, json_get, get_str, key_index, lemma_key_index, opt_str};
use crate::lk::schema::{Banner, BoardContent, BoardRecord, Document, LkRoot, Presentation, Property,
    Resource};
use crate::lk::io::{generate_id, is_record_id, now_rfc3339};
use crate::prosemirror::from_markdown::{from_markdown, md_document, typed_with, typed_with_exec,
    array_of};
use crate::lk::LkError;
use crate::text::{
    lowercase,
    cat, cat3, clone_opt_string, copy_str, nat_dec, seq_lt, sorted_insert, sorted_strict, str_eq, str_views,
    usize_to_string,
};

verus! {

/// A resource of the draft, as listed.
#[derive(Debug, Clone)]
pub struct DraftResourceSummary {
    pub id: String,
    pub name: String,
    pub parent_id: Option<String>,
    pub tags: Vec<String>,
    pub document_count: usize,
}

/// The draft world, as listed.
#[derive(Debug, Clone)]
pub struct DraftSummary {
    pub name: String,
    pub resource_count: usize,
    pub resources: Vec<DraftResourceSummary>,
}

/// A document added to a draft resource.
#[derive(Debug, Clone)]
pub struct DraftDocumentSummary {
    pub id: String,
    pub name: String,
    pub doc_type: String,
}

// ---------------------------------------------------------------------------
// Board validation
// ---------------------------------------------------------------------------

/// The key and value models of board records.
pub open spec fn records_model(recs: Seq<BoardRecord>) -> Seq<(Seq<char>, Json)> {
    Seq::new(recs.len(), |i: int| (recs[i].key@, recs[i].val@))
}

pub open spec fn has_key(v: Json, k: Seq<char>) -> bool {
    json_get(v, k) is Some
}

/// The first of `fields` that `v` lacks.
pub open spec fn first_missing(v: Json, fields: Seq<Seq<char>>) -> Option<Seq<char>>
    decreases fields.len(),
{
    if fields.len() == 0 {
        None
    } else if !has_key(v, fields[0]) {
        Some(fields[0])
    } else {
        first_missing(v, fields.drop_first())
    }
}

pub open spec fn binding_fields() -> Seq<Seq<char>> {
    seq!["type"@, "fromId"@, "toId"@, "props"@]
}

pub open spec fn shape_fields() -> Seq<Seq<char>> {
    seq!["type"@, "props"@, "parentId"@, "index"@]
}

/// How a record is named in messages: its position and key.
pub open spec fn record_ctx(i: int, key: Seq<char>) -> Seq<char> {
    "shapesV2["@ + nat_dec(i as nat) + "] (key="@ + key + ")"@
}

/// The problem of board record `i`, if it has one.
pub open spec fn record_error(i: int, key: Seq<char>, v: Json) -> Option<Seq<char>> {
    let ctx = record_ctx(i, key);
    if get_str(v, "id"@) is None {
        Some(ctx + ": missing required field 'id'"@)
    } else if !has_key(v, "meta"@) {
        Some(ctx + ": missing required field 'meta'"@)
    } else {
        match get_str(v, "typeName"@) {
            None => Some(ctx + ": missing required field 'typeName'"@),
            Some(t) => if t == "binding"@ {
                match first_missing(v, binding_fields()) {
                    Some(f) => Some(ctx + ": binding missing required field '"@ + f + "'"@),
                    None => None,
                }
            } else if t == "shape"@ {
                match first_missing(v, shape_fields()) {
                    Some(f) => Some(ctx + ": shape missing required field '"@ + f + "'"@),
                    None => match json_get(v, "props"@) {
                        Some(p) => if !has_key(p, "scale"@) {
                            Some(ctx + ": shape props missing required field 'scale'"@)
                        } else {
                            None
                        },
                        None => None,
                    },
                }
            } else if t == "document"@ || t == "page"@ {
                None
            } else {
                Some(ctx + ": unknown typeName '"@ + t + "'"@)
            },
        }
    }
}

/// The first problem among the board records from record `i` on.
pub open spec fn records_error(recs: Seq<(Seq<char>, Json)>, i: int) -> Option<Seq<char>>
    decreases recs.len() - i,
{
    if i < 0 || i >= recs.len() {
        None
    } else {
        match record_error(i, recs[i].0, recs[i].1) {
            Some(m) => Some(m),
            None => records_error(recs, i + 1),
        }
    }
}

/// The first problem of a board, if it has one.
pub open spec fn board_error(board: BoardContent) -> Option<Seq<char>> {
    records_error(records_model(board.shapes_v2@), 0)
}

fn missing(ctx: &str, what: &str, field: &str) -> (e: LkError)
    ensures
        e matches LkError::InvalidInput(m) && m@ == ctx@ + ": "@ + what@ + " required field '"@
            + field@ + "'"@,
{
    let mut m = String::new();
    m.push_str(ctx);
    m.push_str(": ");
    m.push_str(what);
    m.push_str(" required field '");
    m.push_str(field);
    m.push_str("'");
    LkError::InvalidInput(m)
}

/// The problem of one record.
fn check_record(i: usize, record: &BoardRecord) -> (r: Result<(), LkError>)
    ensures
        r is Ok <==> record_error(i as int, record.key@, record.val@) is None,
        r matches Err(e) ==> e matches LkError::InvalidInput(m) && record_error(
            i as int,
            record.key@,
            record.val@,
        ) == Some(m@),
{
    proof {
        reveal_strlit("missing");
        reveal_strlit("binding missing");
        reveal_strlit("shape missing");
        reveal_strlit("shape props missing");
        reveal_strlit(": ");
        reveal_strlit(" required field '");
        reveal_strlit("'");
        reveal_strlit(": missing required field 'id'");
        reveal_strlit(": missing required field 'meta'");
        reveal_strlit(": missing required field 'typeName'");
        reveal_strlit(": binding missing required field '");
        reveal_strlit(": shape missing required field '");
        reveal_strlit(": shape props missing required field 'scale'");
        reveal_strlit("id");
        reveal_strlit("meta");
        reveal_strlit("typeName");
        reveal_strlit("scale");
        reveal_with_fuel(first_missing, 5);
    }
    let val = &record.val;
    let mut ctx = String::new();
    ctx.push_str("shapesV2[");
    let d = usize_to_string(i);
    ctx.push_str(&d);
    ctx.push_str("] (key=");
    ctx.push_str(record.key.as_str());
    ctx.push_str(")");
    assert(ctx@ == record_ctx(i as int, record.key@));
    if val.get_str("id").is_none() {
        return Err(missing(&ctx, "missing", "id"));
    }
    if val.get("meta").is_none() {
        return Err(missing(&ctx, "missing", "meta"));
    }
    let tname = match val.get_str("typeName") {
        Some(t) => t,
        None => {
            return Err(missing(&ctx, "missing", "typeName"));
        },
    };
    if str_eq(tname.as_str(), "binding") {
        if val.get("type").is_none() {
            return Err(missing(&ctx, "binding missing", "type"));
        }
        if val.get("fromId").is_none() {
            return Err(missing(&ctx, "binding missing", "fromId"));
        }
        if val.get("toId").is_none() {
            return Err(missing(&ctx, "binding missing", "toId"));
        }
        if val.get("props").is_none() {
            return Err(missing(&ctx, "binding missing", "props"));
        }
        Ok(())
    } else if str_eq(tname.as_str(), "shape") {
        if val.get("type").is_none() {
            return Err(missing(&ctx, "shape missing", "type"));
        }
        let props = val.get("props");
        if props.is_none() {
            return Err(missing(&ctx, "shape missing", "props"));
        }
        if val.get("parentId").is_none() {
            return Err(missing(&ctx, "shape missing", "parentId"));
        }
        if val.get("index").is_none() {
            return Err(missing(&ctx, "shape missing", "index"));
        }
        match props {
            Some(p) => {
                if p.get("scale").is_none() {
                    return Err(missing(&ctx, "shape props missing", "scale"));
                }
            },
            None => {},
        }
        Ok(())
    } else if str_eq(tname.as_str(), "document") || str_eq(tname.as_str(), "page") {
        Ok(())
    } else {
        let mut m = String::new();
        m.push_str(ctx.as_str());
        m.push_str(": unknown typeName '");
        m.push_str(tname.as_str());
        m.push_str("'");
        Err(LkError::InvalidInput(m))
    }
}

/// Checks that every board record has the fields Legend Keeper needs on import.
pub fn validate_board_content(board: &BoardContent) -> (r: Result<(), LkError>)
    ensures
        r is Ok <==> board_error(*board) is None,
        r matches Err(e) ==> e matches LkError::InvalidInput(m) && board_error(*board) == Some(
            m@,
        ),
{
    let ghost recs = records_model(board.shapes_v2@);
    let mut i: usize = 0;
    while i < board.shapes_v2.len()
        invariant
            i <= board.shapes_v2.len(),
            recs == records_model(board.shapes_v2@),
            records_error(recs, 0) == records_error(recs, i as int),
        decreases board.shapes_v2.len() - i,
    {
        let rec = &board.shapes_v2[i];
        assert(recs[i as int] == (rec.key@, rec.val@));
        match check_record(i, rec) {
            Ok(()) => {},
            Err(e) => {
                return Err(e);
            },
        }
        i = i + 1;
    }
    Ok(())
}

/// Public name of the board check.
pub fn validate_board_content_pub(board: &BoardContent) -> (r: Result<(), LkError>)
    ensures
        r is Ok <==> board_error(*board) is None,
        r matches Err(e) ==> e matches LkError::InvalidInput(m) && board_error(*board) == Some(
            m@,
        ),
{
    validate_board_content(board)
}


// ---------------------------------------------------------------------------
// The draft world
// ---------------------------------------------------------------------------

/// An in-memory world being assembled for export.
pub struct WorldBuilder {
    pub name: String,
    pub root: LkRoot,
}

/// The ids of resources, in order.
pub open spec fn res_ids(rs: Seq<Resource>) -> Seq<Seq<char>> {
    Seq::new(rs.len(), |i: int| rs[i].id@)
}

/// The position of the first resource with id `id` (`rs.len()` if none).
pub open spec fn res_index(rs: Seq<Resource>, id: Seq<char>) -> int {
    key_index(res_ids(rs), id, 0)
}

pub open spec fn has_res(rs: Seq<Resource>, id: Seq<char>) -> bool {
    exists|i: int| 0 <= i < rs.len() && (#[trigger] rs[i]).id@ == id
}

pub open spec fn parent_of(r: Resource) -> Option<Seq<char>> {
    opt_str(r.parent_id)
}

pub open spec fn has_child(rs: Seq<Resource>, p: Seq<char>) -> bool {
    exists|i: int| 0 <= i < rs.len() && parent_of(#[trigger] rs[i]) == Some(p)
}

/// `x` is `root`, or the id of a resource whose parent is reached from `root`
/// within `n - 1` steps.
pub open spec fn reach(rs: Seq<Resource>, root: Seq<char>, x: Seq<char>, n: nat) -> bool
    decreases n,
{
    x == root || (n > 0 && exists|i: int|
        0 <= i < rs.len() && (#[trigger] rs[i]).id@ == x && match parent_of(rs[i]) {
            Some(p) => reach(rs, root, p, (n - 1) as nat),
            None => false,
        })
}

/// `x` is `root` or the id of one of its descendants.
pub open spec fn in_subtree(rs: Seq<Resource>, root: Seq<char>, x: Seq<char>) -> bool {
    exists|n: nat| reach(rs, root, x, n)
}

/// The fields of a world root other than its resources are those of `b`.
pub open spec fn root_keeps(a: LkRoot, b: LkRoot) -> bool {
    &&& a.version == b.version
    &&& a.export_id == b.export_id
    &&& a.exported_at == b.exported_at
    &&& a.calendars == b.calendars
    &&& a.hash == b.hash
}

/// Resources whose id is not `id`.
pub open spec fn other_id(id: Seq<char>) -> spec_fn(Resource) -> bool {
    |x: Resource| x.id@ != id
}

/// Resources outside the subtree of `root`.
pub open spec fn outside_subtree(rs: Seq<Resource>, root: Seq<char>) -> spec_fn(Resource) -> bool {
    |x: Resource| !in_subtree(rs, root, x.id@)
}

/// The message of a refused non-recursive delete.
pub open spec fn children_msg(id: Seq<char>) -> Seq<char> {
    "Resource "@ + id
        + " has children. Use recursive=true to delete them, or reparent them first."@
}

/// The first resource with the given id.
fn find_resource(rs: &Vec<Resource>, id: &str) -> (r: usize)
    ensures
        r == res_index(rs@, id@),
        r <= rs.len(),
        r < rs.len() <==> has_res(rs@, id@),
        r < rs.len() ==> rs@[r as int].id@ == id@,
{
    let ghost ks = res_ids(rs@);
    proof { lemma_key_index(ks, id@, 0); }
    let mut i: usize = 0;
    while i < rs.len()
        invariant
            i <= rs.len(),
            ks == res_ids(rs@),
            key_index(ks, id@, 0) == key_index(ks, id@, i as int),
            forall|j: int| 0 <= j < i ==> ks[j] != id@,
        decreases rs.len() - i,
    {
        if str_eq(rs[i].id.as_str(), id) {
            return i;
        }
        i = i + 1;
    }
    proof {
        if has_res(rs@, id@) {
            let j = choose|j: int| 0 <= j < rs.len() && (#[trigger] rs@[j]).id@ == id@;
            assert(ks[j] == id@);
        }
    }
    i
}

/// Whether some resource has parent `p`.
fn any_child(rs: &Vec<Resource>, p: &str) -> (b: bool)
    ensures
        b == has_child(rs@, p@),
{
    let mut i: usize = 0;
    while i < rs.len()
        invariant
            i <= rs.len(),
            forall|j: int| 0 <= j < i ==> parent_of(#[trigger] rs@[j]) != Some(p@),
        decreases rs.len() - i,
    {
        match &rs[i].parent_id {
            Some(q) => {
                if str_eq(q.as_str(), p) {
                    return true;
                }
            },
            None => {},
        }
        i = i + 1;
    }
    false
}

/// The resources of `v` that `keep` marks, in order.
fn keep_where(
    v: Vec<Resource>,
    keep: &Vec<bool>,
    Ghost(pred): Ghost<spec_fn(Resource) -> bool>,
) -> (r: Vec<Resource>)
    requires
        keep.len() == v.len(),
        forall|i: int| 0 <= i < v.len() ==> keep@[i] == pred(#[trigger] v@[i]),
    ensures
        r@ == v@.filter(pred),
{
    let ghost orig = v@;
    let mut rest = v;
    let mut kept: Vec<Resource> = Vec::new();
    let mut i: usize = 0;
    assert(orig.take(0) =~= Seq::<Resource>::empty());
    assert(orig.skip(0) =~= orig);
    while i < keep.len()
        invariant
            i <= orig.len(),
            keep.len() == orig.len(),
            rest@ == orig.skip(i as int),
            kept@ == orig.take(i as int).filter(pred),
            forall|j: int| 0 <= j < orig.len() ==> keep@[j] == pred(#[trigger] orig[j]),
        decreases keep.len() - i,
    {
        let x = rest.remove(0);
        proof {
            orig.take(i as int).lemma_filter_push(orig[i as int], pred);
            assert(orig.take(i + 1) =~= orig.take(i as int).push(orig[i as int]));
            assert(rest@ =~= orig.skip(i + 1));
        }
        if keep[i] {
            kept.push(x);
        }
        i = i + 1;
    }
    assert(orig.take(i as int) =~= orig);
    kept
}

/// `m` counts how many entries are still false.
pub open spec fn count_false(m: Seq<bool>) -> nat
    decreases m.len(),
{
    if m.len() == 0 {
        0
    } else {
        count_false(m.drop_last()) + if !m.last() {
            1nat
        } else {
            0nat
        }
    }
}

proof fn lemma_count_false_mark(m: Seq<bool>, i: int)
    requires
        0 <= i < m.len(),
        !m[i],
    ensures
        count_false(m.update(i, true)) + 1 == count_false(m),
    decreases m.len(),
{
    if i < m.len() - 1 {
        assert(m.update(i, true).drop_last() =~= m.drop_last().update(i, true));
        lemma_count_false_mark(m.drop_last(), i);
    } else {
        assert(m.update(i, true).drop_last() =~= m.drop_last());
    }
}

/// The deleted set as the marks describe it: `root`, and the ids of the
/// marked resources.
pub open spec fn in_marked(rs: Seq<Resource>, m: Seq<bool>, root: Seq<char>, x: Seq<char>) -> bool {
    x == root || exists|j: int| 0 <= j < rs.len() && j < m.len() && m[j] && (#[trigger] rs[j]).id@ == x
}

fn in_marked_exec(rs: &Vec<Resource>, m: &Vec<bool>, root: &str, x: &str) -> (b: bool)
    requires
        m.len() == rs.len(),
    ensures
        b == in_marked(rs@, m@, root@, x@),
{
    if str_eq(x, root) {
        return true;
    }
    let mut j: usize = 0;
    while j < rs.len()
        invariant
            j <= rs.len(),
            m.len() == rs.len(),
            forall|k: int| 0 <= k < j ==> !(m@[k] && (#[trigger] rs@[k]).id@ == x@),
        decreases rs.len() - j,
    {
        if m[j] && str_eq(rs[j].id.as_str(), x) {
            return true;
        }
        j = j + 1;
    }
    false
}

/// No unmarked resource has a parent in the marked set.
pub open spec fn marks_closed(rs: Seq<Resource>, m: Seq<bool>, root: Seq<char>) -> bool {
    forall|i: int|
        0 <= i < rs.len() && !m[i] ==> !(parent_of(#[trigger] rs[i]) matches Some(p) && in_marked(
            rs,
            m,
            root,
            p,
        ))
}

proof fn lemma_closed_complete(
    rs: Seq<Resource>,
    m: Seq<bool>,
    root: Seq<char>,
    x: Seq<char>,
    n: nat,
)
    requires
        m.len() == rs.len(),
        marks_closed(rs, m, root),
        reach(rs, root, x, n),
    ensures
        in_marked(rs, m, root, x),
    decreases n,
{
    if x != root {
        let i = choose|i: int|
            0 <= i < rs.len() && (#[trigger] rs[i]).id@ == x && match parent_of(rs[i]) {
                Some(p) => reach(rs, root, p, (n - 1) as nat),
                None => false,
            };
        let p = parent_of(rs[i])->0;
        lemma_closed_complete(rs, m, root, p, (n - 1) as nat);
        assert(m[i]);
    }
}

proof fn lemma_reach_step(rs: Seq<Resource>, root: Seq<char>, i: int, p: Seq<char>, n: nat)
    requires
        0 <= i < rs.len(),
        parent_of(rs[i]) == Some(p),
        reach(rs, root, p, n),
    ensures
        reach(rs, root, rs[i].id@, n + 1),
{
    assert(reach(rs, root, p, ((n + 1) - 1) as nat));
}

/// Marks every resource below `root`.
fn mark_subtree(rs: &Vec<Resource>, root: &str) -> (m: Vec<bool>)
    ensures
        m.len() == rs.len(),
        forall|x: Seq<char>| in_marked(rs@, m@, root@, x) <==> in_subtree(rs@, root@, x),
{
    let n = rs.len();
    let mut m: Vec<bool> = Vec::new();
    while m.len() < n
        invariant
            m.len() <= n,
            n == rs.len(),
            forall|j: int| 0 <= j < m.len() ==> !m@[j],
        decreases n - m.len(),
    {
        m.push(false);
    }
    loop
        invariant
            m.len() == n,
            n == rs.len(),
            forall|j: int| 0 <= j < n && #[trigger] m@[j] ==> in_subtree(rs@, root@, rs@[j].id@),
        decreases count_false(m@),
    {
        let ghost start = count_false(m@);
        let ghost m0 = m@;
        let mut changed = false;
        let mut i: usize = 0;
        while i < n
            invariant
                i <= n,
                m.len() == n,
                n == rs.len(),
                forall|j: int| 0 <= j < n && #[trigger] m@[j] ==> in_subtree(rs@, root@, rs@[j].id@),
                changed ==> count_false(m@) < start,
                !changed ==> m@ == m0,
                start == count_false(m0),
                !changed ==> forall|j: int|
                    0 <= j < i && !m@[j] ==> !(parent_of(#[trigger] rs@[j]) matches Some(p)
                        && in_marked(rs@, m@, root@, p)),
            decreases n - i,
        {
            if !m[i] {
                let hit = match &rs[i].parent_id {
                    Some(p) => in_marked_exec(rs, &m, root, p.as_str()),
                    None => false,
                };
                if hit {
                    proof {
                        let p = parent_of(rs@[i as int])->0;
                        let x = rs@[i as int].id@;
                        if p == root@ {
                            assert(reach(rs@, root@, p, 0));
                            lemma_reach_step(rs@, root@, i as int, p, 0);
                        } else {
                            let j = choose|j: int|
                                0 <= j < rs.len() && j < m.len() && m@[j] && (#[trigger] rs@[j]).id@
                                    == p;
                            assert(in_subtree(rs@, root@, rs@[j].id@));
                            let k = choose|k: nat| reach(rs@, root@, p, k);
                            lemma_reach_step(rs@, root@, i as int, p, k);
                        }
                        assert(reach(rs@, root@, x, choose|k: nat| reach(rs@, root@, x, k)));
                        lemma_count_false_mark(m@, i as int);
                    }
                    m.set(i, true);
                    changed = true;
                }
            }
            i = i + 1;
        }
        if !changed {
            proof {
                assert(marks_closed(rs@, m@, root@));
                assert forall|x: Seq<char>| in_marked(rs@, m@, root@, x) <==> in_subtree(
                    rs@,
                    root@,
                    x,
                ) by {
                    if in_subtree(rs@, root@, x) {
                        let k = choose|k: nat| reach(rs@, root@, x, k);
                        lemma_closed_complete(rs@, m@, root@, x, k);
                    }
                    if in_marked(rs@, m@, root@, x) && x == root@ {
                        assert(reach(rs@, root@, x, 0));
                    }
                }
            }
            return m;
        }
    }
}

impl WorldBuilder {
    /// Deletes a resource; with `recursive`, its descendants too. Returns the
    /// deleted ids in order.
    pub fn delete_resource(&mut self, resource_id: &str, recursive: bool) -> (r: Result<
        Vec<String>,
        LkError,
    >)
        ensures
            final(self).name == old(self).name,
            !has_res(old(self).root.resources@, resource_id@) ==> *final(self) == *old(self) && (
            r matches Err(LkError::DraftResourceNotFound(s)) && s@ == resource_id@),
            has_res(old(self).root.resources@, resource_id@) && !recursive && has_child(
                old(self).root.resources@,
                resource_id@,
            ) ==> *final(self) == *old(self) && (r matches Err(LkError::InvalidInput(s)) && s@
                == children_msg(resource_id@)),
            has_res(old(self).root.resources@, resource_id@) && !recursive && !has_child(
                old(self).root.resources@,
                resource_id@,
            ) ==> (r matches Ok(v) && str_views(v@) == seq![resource_id@])
                && final(self).root.resources@ == old(self).root.resources@.filter(
                other_id(resource_id@),
            ),
            has_res(old(self).root.resources@, resource_id@) && recursive ==> (r matches Ok(v)
                && sorted_strict(str_views(v@)) && (forall|x: Seq<char>|
                str_views(v@).contains(x) <==> in_subtree(
                    old(self).root.resources@,
                    resource_id@,
                    x,
                ))) && final(self).root.resources@ == old(self).root.resources@.filter(
                outside_subtree(old(self).root.resources@, resource_id@),
            ),
            r is Ok ==> final(self).root.resource_count == final(self).root.resources.len(),
            root_keeps(final(self).root, old(self).root),
    {
        let ghost rs0 = self.root.resources@;
        let ghost rid = resource_id@;
        let k = find_resource(&self.root.resources, resource_id);
        if k == self.root.resources.len() {
            return Err(LkError::DraftResourceNotFound(copy_str(resource_id)));
        }
        let mut keep: Vec<bool> = Vec::new();
        let mut deleted: Vec<String> = Vec::new();
        if !recursive {
            if any_child(&self.root.resources, resource_id) {
                return Err(
                    LkError::InvalidInput(
                        cat3(
                            "Resource ",
                            resource_id,
                            " has children. Use recursive=true to delete them, or reparent them first.",
                        ),
                    ),
                );
            }
            let mut i: usize = 0;
            while i < self.root.resources.len()
                invariant
                    i <= self.root.resources.len(),
                    keep.len() == i,
                    rid == resource_id@,
                    self.root.resources@ == rs0,
                    forall|j: int| 0 <= j < i ==> keep@[j] == (rs0[j].id@ != rid),
                decreases self.root.resources.len() - i,
            {
                let b = !str_eq(self.root.resources[i].id.as_str(), resource_id);
                let ghost k0 = keep@;
                keep.push(b);
                assert forall|j: int| 0 <= j < i + 1 implies keep@[j] == (rs0[j].id@ != rid) by {
                    if j < i {
                        assert(keep@[j] == k0[j]);
                    } else {
                        assert(keep@[j] == b);
                    }
                }
                i = i + 1;
            }
            deleted.push(copy_str(resource_id));
            assert(str_views(deleted@) =~= seq![rid]);
            let mut rest: Vec<Resource> = Vec::new();
            std::mem::swap(&mut rest, &mut self.root.resources);
            self.root.resources = keep_where(rest, &keep, Ghost(other_id(rid)));
        } else {
            let m = mark_subtree(&self.root.resources, resource_id);
            let mut i: usize = 0;
            deleted.push(copy_str(resource_id));
            assert(str_views(deleted@) =~= seq![rid]);
            assert forall|x: Seq<char>|
                str_views(deleted@).contains(x) <==> (x == rid || exists|j: int|
                    0 <= j < 0 && m@[j] && (#[trigger] rs0[j]).id@ == x) by {
                if x == rid {
                    assert(str_views(deleted@)[0] == x);
                }
            }
            while i < self.root.resources.len()
                invariant
                    i <= self.root.resources.len(),
                    m.len() == rs0.len(),
                    keep.len() == i,
                    rid == resource_id@,
                    self.root.resources@ == rs0,
                    forall|x: Seq<char>| in_marked(rs0, m@, rid, x) <==> in_subtree(rs0, rid, x),
                    forall|j: int|
                        0 <= j < i ==> keep@[j] == !in_subtree(rs0, rid, (#[trigger] rs0[j]).id@),
                    sorted_strict(str_views(deleted@)),
                    forall|x: Seq<char>|
                        str_views(deleted@).contains(x) <==> (x == rid || exists|j: int|
                            0 <= j < i && m@[j] && (#[trigger] rs0[j]).id@ == x),
                decreases self.root.resources.len() - i,
            {
                let gone = in_marked_exec(
                    &self.root.resources,
                    &m,
                    resource_id,
                    self.root.resources[i].id.as_str(),
                );
                let ghost k0 = keep@;
                let ghost xi = rs0[i as int].id@;
                assert(in_marked(rs0, m@, rid, xi) <==> in_subtree(rs0, rid, xi));
                keep.push(!gone);
                assert forall|j: int|
                    0 <= j < i + 1 implies keep@[j] == !in_subtree(rs0, rid, (#[trigger] rs0[j]).id@) by {
                    if j < i {
                        assert(keep@[j] == k0[j]);
                    } else {
                        assert(keep@[j] == !gone);
                    }
                }
                if m[i] {
                    let ghost before = str_views(deleted@);
                    sorted_insert(&mut deleted, self.root.resources[i].id.clone());
                    proof {
                        assert forall|x: Seq<char>|
                            str_views(deleted@).contains(x) <==> (x == rid || exists|j: int|
                                0 <= j < i + 1 && m@[j] && (#[trigger] rs0[j]).id@ == x) by {
                            if x == rs0[i as int].id@ {
                                assert(m@[i as int] && rs0[i as int].id@ == x);
                            }
                            if exists|j: int| 0 <= j < i + 1 && m@[j] && (#[trigger] rs0[j]).id@ == x {
                                let j = choose|j: int|
                                    0 <= j < i + 1 && m@[j] && (#[trigger] rs0[j]).id@ == x;
                                if j < i {
                                    assert(before.contains(x));
                                }
                            }
                        }
                    }
                } else {
                    proof {
                        assert forall|x: Seq<char>|
                            str_views(deleted@).contains(x) <==> (x == rid || exists|j: int|
                                0 <= j < i + 1 && m@[j] && (#[trigger] rs0[j]).id@ == x) by {
                            if exists|j: int| 0 <= j < i + 1 && m@[j] && (#[trigger] rs0[j]).id@ == x {
                                let j = choose|j: int|
                                    0 <= j < i + 1 && m@[j] && (#[trigger] rs0[j]).id@ == x;
                                assert(j < i);
                            }
                        }
                    }
                }
                i = i + 1;
            }
            proof {
                assert forall|x: Seq<char>|
                    str_views(deleted@).contains(x) <==> in_subtree(rs0, rid, x) by {
                    assert(in_marked(rs0, m@, rid, x) == (x == rid || exists|j: int|
                        0 <= j < rs0.len() && m@[j] && (#[trigger] rs0[j]).id@ == x));
                }
            }
            let mut rest: Vec<Resource> = Vec::new();
            std::mem::swap(&mut rest, &mut self.root.resources);
            self.root.resources = keep_where(rest, &keep, Ghost(outside_subtree(rs0, rid)));
        }
        self.root.resource_count = self.root.resources.len();
        Ok(deleted)
    }
}

/// Every parent reference names a resource of `rs`.
pub open spec fn parents_resolved(rs: Seq<Resource>) -> bool {
    forall|i: int|
        0 <= i < rs.len() ==> (parent_of(#[trigger] rs[i]) matches Some(p) ==> has_res(rs, p))
}

/// Deleting a resource with its descendants leaves no resource behind whose
/// parent was deleted: if every parent reference named an existing resource
/// before, every one still does.
pub proof fn law_subtree_delete_keeps_parents(rs: Seq<Resource>, root: Seq<char>)
    requires
        parents_resolved(rs),
    ensures
        parents_resolved(rs.filter(outside_subtree(rs, root))),
{
    let pred = outside_subtree(rs, root);
    let f = rs.filter(pred);
    assert forall|k: int| 0 <= k < f.len() implies (parent_of(#[trigger] f[k]) matches Some(p)
        ==> has_res(f, p)) by {
        let r = f[k];
        rs.lemma_filter_pred(pred, k);
        assert(f.contains(r));
        rs.lemma_filter_contains_rev(pred, r);
        let i = choose|i: int| 0 <= i < rs.len() && rs[i] == r;
        if parent_of(r) is Some {
            let p = parent_of(r)->0;
            assert(parent_of(rs[i]) == Some(p));
            let j = choose|j: int| 0 <= j < rs.len() && (#[trigger] rs[j]).id@ == p;
            if in_subtree(rs, root, p) {
                let n = choose|n: nat| reach(rs, root, p, n);
                lemma_reach_step(rs, root, i, p, n);
                assert(in_subtree(rs, root, r.id@));
                assert(false);
            }
            assert(pred(rs[j]));
            rs.lemma_filter_contains(pred, j);
            let q = choose|q: int| 0 <= q < f.len() && f[q] == rs[j];
            assert(f[q].id@ == p);
        }
    }
}

// ---------------------------------------------------------------------------
// Reparenting
// ---------------------------------------------------------------------------

/// The parent of the first resource with id `a`, if there is one.
pub open spec fn parent_by_id(rs: Seq<Resource>, a: Seq<char>) -> Option<Seq<char>> {
    let k = res_index(rs, a);
    if 0 <= k < rs.len() {
        parent_of(rs[k])
    } else {
        None
    }
}

/// The walk up the ancestors of a new parent: `Ok` when it ends without
/// meeting `rid`; `Err(true)` when it meets `rid`; `Err(false)` when it runs
/// longer than `max` steps.
pub open spec fn ancestor_walk(rs: Seq<Resource>, rid: Seq<char>, a: Seq<char>, depth: int, max: int)
    -> Result<(), bool>
    decreases max - depth,
{
    if a == rid {
        Err(true)
    } else if depth + 1 > max {
        Err(false)
    } else {
        match parent_by_id(rs, a) {
            None => Ok(()),
            Some(p) => ancestor_walk(rs, rid, p, depth + 1, max),
        }
    }
}

/// The outcome of reparenting `rid` under `np` in `rs`.
pub open spec fn reparent_error(rs: Seq<Resource>, rid: Seq<char>, np: Option<Seq<char>>) -> Option<
    LkErrorKind,
> {
    if !has_res(rs, rid) {
        Some(LkErrorKind::MissingResource(rid))
    } else {
        match np {
            None => None,
            Some(p) => if p == rid {
                Some(LkErrorKind::Invalid("Cannot parent a resource under itself"@))
            } else if !has_res(rs, p) {
                Some(LkErrorKind::MissingResource(p))
            } else {
                match ancestor_walk(rs, rid, p, 0, rs.len() as int) {
                    Ok(()) => None,
                    Err(true) => Some(
                        LkErrorKind::Invalid("Cannot reparent: would create a circular reference"@),
                    ),
                    Err(false) => Some(LkErrorKind::Invalid("Cycle detected in resource tree"@)),
                }
            },
        }
    }
}

/// The kind and text of a builder error.
pub enum LkErrorKind {
    MissingResource(Seq<char>),
    MissingDocument(Seq<char>),
    Invalid(Seq<char>),
}

/// A builder error, as a kind and a text.
pub open spec fn error_kind(e: LkError) -> Option<LkErrorKind> {
    match e {
        LkError::DraftResourceNotFound(s) => Some(LkErrorKind::MissingResource(s@)),
        LkError::DraftDocumentNotFound(s) => Some(LkErrorKind::MissingDocument(s@)),
        LkError::InvalidInput(s) => Some(LkErrorKind::Invalid(s@)),
        _ => None,
    }
}

impl WorldBuilder {
    /// Moves a resource under a new parent, or to the top level.
    pub fn reparent_resource(&mut self, resource_id: &str, new_parent_id: Option<&str>) -> (r:
        Result<(), LkError>)
        ensures
            final(self).name == old(self).name,
            final(self).root.resource_count == old(self).root.resource_count,
            root_keeps(final(self).root, old(self).root),
            ({
                let rs = old(self).root.resources@;
                let np = match new_parent_id {
                    Some(p) => Some(p@),
                    None => None,
                };
                match reparent_error(rs, resource_id@, np) {
                    Some(k) => (r matches Err(e) && error_kind(e) == Some(k)) && *final(self)
                        == *old(self),
                    None => r is Ok && final(self).root.resources.len() == rs.len() && ({
                        let k = res_index(rs, resource_id@);
                        &&& parent_of(final(self).root.resources@[k]) == np
                        &&& forall|j: int|
                            0 <= j < rs.len() && j != k ==> final(self).root.resources@[j]
                                == rs[j]
                        &&& same_but_parent(rs[k], final(self).root.resources@[k])
                    }),
                }
            }),
    {
        let ghost rs = self.root.resources@;
        let ghost rid = resource_id@;
        let k = find_resource(&self.root.resources, resource_id);
        if k == self.root.resources.len() {
            return Err(LkError::DraftResourceNotFound(copy_str(resource_id)));
        }
        match new_parent_id {
            Some(pid) => {
                if str_eq(pid, resource_id) {
                    return Err(LkError::InvalidInput(copy_str("Cannot parent a resource under itself")));
                }
                let pk = find_resource(&self.root.resources, pid);
                if pk == self.root.resources.len() {
                    return Err(LkError::DraftResourceNotFound(copy_str(pid)));
                }
                let max_depth = self.root.resources.len();
                let mut ancestor: Option<String> = Some(copy_str(pid));
                let mut depth: usize = 0;
                assert(ancestor_walk(rs, rid, pid@, 0, rs.len() as int) == ancestor_walk(
                    rs,
                    rid,
                    pid@,
                    depth as int,
                    rs.len() as int,
                ));
                loop
                    invariant
                        *self == *old(self),
                        new_parent_id == Some(pid),
                        self.root.resources@ == rs,
                        rid == resource_id@,
                        max_depth == rs.len(),
                        depth <= max_depth,
                        has_res(rs, rid),
                        pid@ != rid,
                        has_res(rs, pid@),
                        ancestor is Some ==> ancestor_walk(rs, rid, pid@, 0, max_depth as int)
                            == ancestor_walk(rs, rid, ancestor->0@, depth as int, max_depth as int),
                        ancestor is None ==> ancestor_walk(rs, rid, pid@, 0, max_depth as int)
                            == Ok::<(), bool>(()),
                    ensures
                        *self == *old(self),
                        ancestor_walk(rs, rid, pid@, 0, rs.len() as int) == Ok::<(), bool>(()),
                    decreases max_depth - depth, if ancestor is Some { 1int } else { 0int },
                {
                    match ancestor {
                        None => {
                            break ;
                        },
                        Some(aid) => {
                            if str_eq(aid.as_str(), resource_id) {
                                assert(ancestor_walk(rs, rid, aid@, depth as int, max_depth as int)
                                    == Err::<(), bool>(true));
                                return Err(
                                    LkError::InvalidInput(
                                        copy_str("Cannot reparent: would create a circular reference"),
                                    ),
                                );
                            }
                            if depth >= max_depth {
                                return Err(
                                    LkError::InvalidInput(copy_str("Cycle detected in resource tree")),
                                );
                            }
                            depth = depth + 1;
                            let ak = find_resource(&self.root.resources, aid.as_str());
                            if ak < self.root.resources.len() {
                                ancestor = clone_opt_string(&self.root.resources[ak].parent_id);
                            } else {
                                ancestor = None;
                            }
                        },
                    }
                }
            },
            None => {},
        }
        let mut res = self.root.resources.remove(k);
        res.parent_id = match new_parent_id {
            Some(p) => Some(copy_str(p)),
            None => None,
        };
        let ghost newr = res;
        self.root.resources.insert(k, res);
        proof {
            assert(self.root.resources@ =~= rs.update(k as int, newr));
            assert(k == res_index(rs, rid));
            let np = match new_parent_id {
                Some(p) => Some(p@),
                None => None,
            };
            assert(reparent_error(rs, rid, np) is None);
            assert(parent_of(newr) == np);
            assert(self.root.resources@[k as int] == newr);
        }
        Ok(())
    }
}

/// Following parents from `a`, the walk ends within `n` steps.
pub open spec fn walk_ends(rs: Seq<Resource>, a: Seq<char>, n: nat) -> bool
    decreases n,
{
    match parent_by_id(rs, a) {
        None => true,
        Some(p) => n > 0 && walk_ends(rs, p, (n - 1) as nat),
    }
}

/// Following parents from `a`, the walk ends.
pub open spec fn walk_ends_from(rs: Seq<Resource>, a: Seq<char>) -> bool {
    exists|n: nat| walk_ends(rs, a, n)
}

/// No chain of parents loops: from every id the walk up ends.
pub open spec fn acyclic(rs: Seq<Resource>) -> bool {
    forall|a: Seq<char>| #[trigger] walk_ends_from(rs, a)
}

/// `rs2` is `rs` with the first resource of id `rid` given parent `np`.
pub open spec fn reparented(rs: Seq<Resource>, rs2: Seq<Resource>, rid: Seq<char>, np: Option<
    Seq<char>,
>) -> bool {
    let k = res_index(rs, rid);
    &&& rs2.len() == rs.len()
    &&& 0 <= k < rs.len()
    &&& parent_of(rs2[k]) == np
    &&& rs2[k].id == rs[k].id
    &&& forall|j: int| 0 <= j < rs.len() && j != k ==> rs2[j] == rs[j]
}

proof fn lemma_reparented_parent(
    rs: Seq<Resource>,
    rs2: Seq<Resource>,
    rid: Seq<char>,
    np: Option<Seq<char>>,
    a: Seq<char>,
)
    requires
        reparented(rs, rs2, rid, np),
    ensures
        a != rid ==> parent_by_id(rs2, a) == parent_by_id(rs, a),
        a == rid ==> parent_by_id(rs2, a) == np,
{
    let k = res_index(rs, rid);
    assert(res_ids(rs2) =~= res_ids(rs)) by {
        assert forall|j: int| 0 <= j < rs.len() implies res_ids(rs2)[j] == res_ids(rs)[j] by {
            if j != k {
                assert(rs2[j] == rs[j]);
            }
        }
    }
    lemma_key_index(res_ids(rs), a, 0);
    lemma_key_index(res_ids(rs), rid, 0);
    let ka = res_index(rs, a);
    if ka == k && ka < rs.len() {
        assert(res_ids(rs)[ka] == a);
        assert(res_ids(rs)[k] == rid);
    }
}

proof fn lemma_walk_ends_mono(rs: Seq<Resource>, a: Seq<char>, n: nat, m: nat)
    requires
        walk_ends(rs, a, n),
        n <= m,
    ensures
        walk_ends(rs, a, m),
    decreases n,
{
    if let Some(p) = parent_by_id(rs, a) {
        lemma_walk_ends_mono(rs, p, (n - 1) as nat, (m - 1) as nat);
    }
}

proof fn lemma_new_parent_walk(
    rs: Seq<Resource>,
    rs2: Seq<Resource>,
    rid: Seq<char>,
    np: Option<Seq<char>>,
    a: Seq<char>,
    d: int,
    max: int,
)
    requires
        reparented(rs, rs2, rid, np),
        ancestor_walk(rs, rid, a, d, max) is Ok,
        d <= max,
    ensures
        walk_ends(rs2, a, (max - d) as nat),
    decreases max - d,
{
    lemma_reparented_parent(rs, rs2, rid, np, a);
    if let Some(q) = parent_by_id(rs, a) {
        lemma_new_parent_walk(rs, rs2, rid, np, q, d + 1, max);
    }
}

proof fn lemma_old_walk(
    rs: Seq<Resource>,
    rs2: Seq<Resource>,
    rid: Seq<char>,
    p: Seq<char>,
    a: Seq<char>,
    n: nat,
)
    requires
        reparented(rs, rs2, rid, Some(p)),
        ancestor_walk(rs, rid, p, 0, rs.len() as int) is Ok,
        walk_ends(rs, a, n),
    ensures
        walk_ends(rs2, a, n + rs.len() + 1),
    decreases n,
{
    lemma_reparented_parent(rs, rs2, rid, Some(p), a);
    if a == rid {
        lemma_new_parent_walk(rs, rs2, rid, Some(p), p, 0, rs.len() as int);
        lemma_walk_ends_mono(rs2, p, rs.len(), n + rs.len());
    } else if let Some(q) = parent_by_id(rs, a) {
        lemma_old_walk(rs, rs2, rid, p, q, (n - 1) as nat);
    }
}

proof fn lemma_detached_walk(
    rs: Seq<Resource>,
    rs2: Seq<Resource>,
    rid: Seq<char>,
    a: Seq<char>,
    n: nat,
)
    requires
        reparented(rs, rs2, rid, None),
        walk_ends(rs, a, n),
    ensures
        walk_ends(rs2, a, n),
    decreases n,
{
    lemma_reparented_parent(rs, rs2, rid, None, a);
    if a != rid {
        if let Some(q) = parent_by_id(rs, a) {
            lemma_detached_walk(rs, rs2, rid, q, (n - 1) as nat);
        }
    }
}

/// A reparenting that the builder accepts keeps the resource tree free of
/// cycles: if no chain of parents looped before, none loops after.
pub proof fn law_reparent_keeps_acyclic(
    rs: Seq<Resource>,
    rs2: Seq<Resource>,
    rid: Seq<char>,
    np: Option<Seq<char>>,
)
    requires
        acyclic(rs),
        reparent_error(rs, rid, np) is None,
        reparented(rs, rs2, rid, np),
    ensures
        acyclic(rs2),
{
    assert forall|a: Seq<char>| #[trigger] walk_ends_from(rs2, a) by {
        assert(walk_ends_from(rs, a));
        let n = choose|n: nat| walk_ends(rs, a, n);
        match np {
            None => {
                lemma_detached_walk(rs, rs2, rid, a, n);
            },
            Some(p) => {
                assert(has_res(rs, rid));
                assert(p != rid);
                assert(has_res(rs, p));
                assert(ancestor_walk(rs, rid, p, 0, rs.len() as int) is Ok);
                lemma_old_walk(rs, rs2, rid, p, a, n);
            },
        }
    }
}

// ---------------------------------------------------------------------------
// Lookups and edits of the draft
// ---------------------------------------------------------------------------

/// The lowercased names of resources, in order.
pub open spec fn lower_names(rs: Seq<Resource>) -> Seq<Seq<char>> {
    Seq::new(rs.len(), |i: int| lowercase(rs[i].name@))
}

/// The position of the first resource whose lowercased name is that of `q`.
pub open spec fn name_index(rs: Seq<Resource>, q: Seq<char>) -> int {
    key_index(lower_names(rs), lowercase(q), 0)
}

pub open spec fn doc_ids(ds: Seq<Document>) -> Seq<Seq<char>> {
    Seq::new(ds.len(), |i: int| ds[i].id@)
}

pub open spec fn doc_types(ds: Seq<Document>) -> Seq<Seq<char>> {
    Seq::new(ds.len(), |i: int| ds[i].doc_type@)
}

/// The document a lookup picks: by id, or else the first page.
pub open spec fn doc_pick(ds: Seq<Document>, document_id: Option<Seq<char>>) -> int {
    match document_id {
        Some(d) => key_index(doc_ids(ds), d, 0),
        None => key_index(doc_types(ds), "page"@, 0),
    }
}

/// The error of a document lookup that finds nothing.
pub open spec fn doc_missing(document_id: Option<Seq<char>>) -> Seq<char> {
    match document_id {
        Some(d) => d,
        None => "no page document found"@,
    }
}

pub open spec fn opt_view(o: Option<&str>) -> Option<Seq<char>> {
    match o {
        Some(s) => Some(s@),
        None => None,
    }
}

/// `s` lists resource `r`.
pub open spec fn summarizes(s: DraftResourceSummary, r: Resource) -> bool {
    &&& s.id@ == r.id@
    &&& s.name@ == r.name@
    &&& opt_str(s.parent_id) == opt_str(r.parent_id)
    &&& s.tags@ == r.tags@
    &&& s.document_count == r.documents.len()
}

/// `b` is `a` but for its name, tags, visibility and aliases.
pub open spec fn same_but_metadata(a: Resource, b: Resource) -> bool {
    &&& a.schema_version == b.schema_version
    &&& a.id == b.id
    &&& a.parent_id == b.parent_id
    &&& a.pos == b.pos
    &&& a.created_by == b.created_by
    &&& a.is_locked == b.is_locked
    &&& a.show_property_bar == b.show_property_bar
    &&& a.icon_color == b.icon_color
    &&& a.icon_glyph == b.icon_glyph
    &&& a.icon_shape == b.icon_shape
    &&& a.documents == b.documents
    &&& a.properties == b.properties
    &&& a.banner == b.banner
}

/// `b` is `a` but for its parent.
pub open spec fn same_but_parent(a: Resource, b: Resource) -> bool {
    &&& a.schema_version == b.schema_version
    &&& a.id == b.id
    &&& a.name == b.name
    &&& a.pos == b.pos
    &&& a.created_by == b.created_by
    &&& a.is_hidden == b.is_hidden
    &&& a.is_locked == b.is_locked
    &&& a.show_property_bar == b.show_property_bar
    &&& a.icon_color == b.icon_color
    &&& a.icon_glyph == b.icon_glyph
    &&& a.icon_shape == b.icon_shape
    &&& a.aliases == b.aliases
    &&& a.tags == b.tags
    &&& a.documents == b.documents
    &&& a.properties == b.properties
    &&& a.banner == b.banner
}

/// `b` is `a` but for its documents.
pub open spec fn same_but_documents(a: Resource, b: Resource) -> bool {
    &&& a.schema_version == b.schema_version
    &&& a.id == b.id
    &&& a.name == b.name
    &&& a.parent_id == b.parent_id
    &&& a.pos == b.pos
    &&& a.created_by == b.created_by
    &&& a.is_hidden == b.is_hidden
    &&& a.is_locked == b.is_locked
    &&& a.show_property_bar == b.show_property_bar
    &&& a.icon_color == b.icon_color
    &&& a.icon_glyph == b.icon_glyph
    &&& a.icon_shape == b.icon_shape
    &&& a.aliases == b.aliases
    &&& a.tags == b.tags
    &&& a.properties == b.properties
    &&& a.banner == b.banner
}

/// The first resource whose lowercased name is that of `q`.
pub fn find_name_pub(rs: &Vec<Resource>, q: &str) -> (r: usize)
    ensures
        r == name_index(rs@, q@),
        r <= rs.len(),
{
    find_name(rs, q)
}

/// The first resource with the given id.
pub fn find_resource_pub(rs: &Vec<Resource>, id: &str) -> (r: usize)
    ensures
        r == res_index(rs@, id@),
        r <= rs.len(),
        r < rs.len() <==> has_res(rs@, id@),
{
    find_resource(rs, id)
}

fn find_name(rs: &Vec<Resource>, q: &str) -> (r: usize)
    ensures
        r == name_index(rs@, q@),
        r <= rs.len(),
{
    let lq = crate::text::to_lowercase(q);
    let ghost ks = lower_names(rs@);
    proof { lemma_key_index(ks, lq@, 0); }
    let mut i: usize = 0;
    while i < rs.len()
        invariant
            i <= rs.len(),
            ks == lower_names(rs@),
            lq@ == lowercase(q@),
            key_index(ks, lq@, 0) == key_index(ks, lq@, i as int),
        decreases rs.len() - i,
    {
        let ln = crate::text::to_lowercase(rs[i].name.as_str());
        if str_eq(ln.as_str(), lq.as_str()) {
            return i;
        }
        i = i + 1;
    }
    i
}

fn find_doc_id(ds: &Vec<Document>, id: &str) -> (r: usize)
    ensures
        r == key_index(doc_ids(ds@), id@, 0),
        r <= ds.len(),
{
    let ghost ks = doc_ids(ds@);
    proof { lemma_key_index(ks, id@, 0); }
    let mut i: usize = 0;
    while i < ds.len()
        invariant
            i <= ds.len(),
            ks == doc_ids(ds@),
            key_index(ks, id@, 0) == key_index(ks, id@, i as int),
        decreases ds.len() - i,
    {
        if str_eq(ds[i].id.as_str(), id) {
            return i;
        }
        i = i + 1;
    }
    i
}

fn find_doc_type(ds: &Vec<Document>, t: &str) -> (r: usize)
    ensures
        r == key_index(doc_types(ds@), t@, 0),
        r <= ds.len(),
{
    let ghost ks = doc_types(ds@);
    proof { lemma_key_index(ks, t@, 0); }
    let mut i: usize = 0;
    while i < ds.len()
        invariant
            i <= ds.len(),
            ks == doc_types(ds@),
            key_index(ks, t@, 0) == key_index(ks, t@, i as int),
        decreases ds.len() - i,
    {
        if str_eq(ds[i].doc_type.as_str(), t) {
            return i;
        }
        i = i + 1;
    }
    i
}

fn find_doc(ds: &Vec<Document>, document_id: Option<&str>) -> (r: usize)
    ensures
        r == doc_pick(ds@, opt_view(document_id)),
        r <= ds.len(),
{
    match document_id {
        Some(d) => find_doc_id(ds, d),
        None => find_doc_type(ds, "page"),
    }
}

fn summary_of(r: &Resource) -> (s: DraftResourceSummary)
    ensures
        summarizes(s, *r),
{
    DraftResourceSummary {
        id: r.id.clone(),
        name: r.name.clone(),
        parent_id: clone_opt_string(&r.parent_id),
        tags: crate::text::clone_strings(&r.tags),
        document_count: r.documents.len(),
    }
}

/// `b` is a new draft world named `name`: version 1, a fresh export id,
/// and nothing in it yet.
pub open spec fn empty_draft(b: WorldBuilder, name: Seq<char>) -> bool {
    &&& b.name@ == name
    &&& b.root.version == 1
    &&& crate::lk::io::is_record_id(b.root.export_id@)
    &&& b.root.exported_at@ == Seq::<char>::empty()
    &&& b.root.resources@.len() == 0
    &&& b.root.calendars@.len() == 0
    &&& b.root.resource_count == 0
    &&& b.root.hash@ == Seq::<char>::empty()
}

impl WorldBuilder {
    /// An empty draft world with a fresh export id.
    pub fn new(name: &str) -> (b: Self)
        ensures
            empty_draft(b, name@),
    {
        WorldBuilder {
            name: copy_str(name),
            root: LkRoot {
                version: 1,
                export_id: crate::lk::io::generate_id(),
                exported_at: String::new(),
                resources: Vec::new(),
                calendars: Vec::new(),
                resource_count: 0,
                hash: String::new(),
            },
        }
    }

    /// A draft holding an existing world, with all its ids and content.
    pub fn from_lk_root(name: String, root: LkRoot) -> (b: Self)
        ensures
            b.name == name,
            b.root == root,
    {
        WorldBuilder { name, root }
    }

    /// A draft resource by id, or else by name, compared without case.
    pub fn get_draft_resource(&self, id_or_name: &str) -> (r: Result<&Resource, LkError>)
        ensures
            ({
                let rs = self.root.resources@;
                if has_res(rs, id_or_name@) {
                    r matches Ok(x) && *x == rs[res_index(rs, id_or_name@)]
                } else if name_index(rs, id_or_name@) < rs.len() {
                    r matches Ok(x) && *x == rs[name_index(rs, id_or_name@)]
                } else {
                    r matches Err(LkError::DraftResourceNotFound(s)) && s@ == id_or_name@
                }
            }),
    {
        let k = find_resource(&self.root.resources, id_or_name);
        if k < self.root.resources.len() {
            return Ok(&self.root.resources[k]);
        }
        let j = find_name(&self.root.resources, id_or_name);
        if j < self.root.resources.len() {
            Ok(&self.root.resources[j])
        } else {
            Err(LkError::DraftResourceNotFound(copy_str(id_or_name)))
        }
    }

    /// A document of a draft resource: the one with the given id, or else
    /// the first page.
    pub fn get_draft_document(&self, resource_id: &str, document_id: Option<&str>) -> (r: Result<
        &Document,
        LkError,
    >)
        ensures
            ({
                let rs = self.root.resources@;
                if !has_res(rs, resource_id@) {
                    r matches Err(LkError::DraftResourceNotFound(s)) && s@ == resource_id@
                } else {
                    let ds = rs[res_index(rs, resource_id@)].documents@;
                    let d = doc_pick(ds, opt_view(document_id));
                    if d < ds.len() {
                        r matches Ok(x) && *x == ds[d]
                    } else {
                        r matches Err(LkError::DraftDocumentNotFound(s)) && s@ == doc_missing(
                            opt_view(document_id),
                        )
                    }
                }
            }),
    {
        let k = find_resource(&self.root.resources, resource_id);
        if k == self.root.resources.len() {
            return Err(LkError::DraftResourceNotFound(copy_str(resource_id)));
        }
        let ds = &self.root.resources[k].documents;
        let d = find_doc(ds, document_id);
        if d < ds.len() {
            Ok(&ds[d])
        } else {
            match document_id {
                Some(did) => Err(LkError::DraftDocumentNotFound(copy_str(did))),
                None => Err(LkError::DraftDocumentNotFound(copy_str("no page document found"))),
            }
        }
    }

    /// Sets the given metadata of a draft resource; the rest stays.
    pub fn update_resource(
        &mut self,
        resource_id: &str,
        name: Option<&str>,
        tags: Option<Vec<String>>,
        is_hidden: Option<bool>,
        aliases: Option<Vec<String>>,
    ) -> (r: Result<DraftResourceSummary, LkError>)
        ensures
            final(self).name == old(self).name,
            final(self).root.resource_count == old(self).root.resource_count,
            root_keeps(final(self).root, old(self).root),
            ({
                let rs = old(self).root.resources@;
                let rs2 = final(self).root.resources@;
                let k = res_index(rs, resource_id@);
                if !has_res(rs, resource_id@) {
                    *final(self) == *old(self) && (r matches Err(LkError::DraftResourceNotFound(s))
                        && s@ == resource_id@)
                } else {
                    &&& rs2.len() == rs.len()
                    &&& forall|j: int| 0 <= j < rs.len() && j != k ==> rs2[j] == rs[j]
                    &&& same_but_metadata(rs[k], rs2[k])
                    &&& rs2[k].name@ == (match name {
                        Some(n) => n@,
                        None => rs[k].name@,
                    })
                    &&& rs2[k].tags == (match tags {
                        Some(t) => t,
                        None => rs[k].tags,
                    })
                    &&& rs2[k].is_hidden == (match is_hidden {
                        Some(h) => h,
                        None => rs[k].is_hidden,
                    })
                    &&& rs2[k].aliases == (match aliases {
                        Some(a) => a,
                        None => rs[k].aliases,
                    })
                    &&& r matches Ok(s) && summarizes(s, rs2[k])
                }
            }),
    {
        let ghost rs = self.root.resources@;
        let k = find_resource(&self.root.resources, resource_id);
        if k == self.root.resources.len() {
            return Err(LkError::DraftResourceNotFound(copy_str(resource_id)));
        }
        let mut res = self.root.resources.remove(k);
        if let Some(n) = name {
            res.name = copy_str(n);
        }
        if let Some(t) = tags {
            res.tags = t;
        }
        if let Some(h) = is_hidden {
            res.is_hidden = h;
        }
        if let Some(a) = aliases {
            res.aliases = a;
        }
        let summary = summary_of(&res);
        let ghost newr = res;
        self.root.resources.insert(k, res);
        assert(self.root.resources@ =~= rs.update(k as int, newr));
        Ok(summary)
    }

    /// Deletes a document of a draft resource and returns its name; the last
    /// document of a resource stays.
    pub fn delete_document(&mut self, resource_id: &str, document_id: &str) -> (r: Result<
        String,
        LkError,
    >)
        ensures
            final(self).name == old(self).name,
            final(self).root.resource_count == old(self).root.resource_count,
            root_keeps(final(self).root, old(self).root),
            ({
                let rs = old(self).root.resources@;
                let rs2 = final(self).root.resources@;
                let k = res_index(rs, resource_id@);
                let ds = rs[k].documents@;
                let d = key_index(doc_ids(ds), document_id@, 0);
                if !has_res(rs, resource_id@) {
                    *final(self) == *old(self) && (r matches Err(LkError::DraftResourceNotFound(s))
                        && s@ == resource_id@)
                } else if ds.len() <= 1 {
                    *final(self) == *old(self) && (r matches Err(LkError::InvalidInput(s)) && s@
                        == "Cannot delete the last document on a resource"@)
                } else if d == ds.len() {
                    *final(self) == *old(self) && (r matches Err(LkError::DraftDocumentNotFound(s))
                        && s@ == document_id@)
                } else {
                    &&& rs2.len() == rs.len()
                    &&& forall|j: int| 0 <= j < rs.len() && j != k ==> rs2[j] == rs[j]
                    &&& same_but_documents(rs[k], rs2[k])
                    &&& rs2[k].documents@ == ds.remove(d)
                    &&& r matches Ok(n) && n == ds[d].name
                }
            }),
    {
        let ghost rs = self.root.resources@;
        let k = find_resource(&self.root.resources, resource_id);
        if k == self.root.resources.len() {
            return Err(LkError::DraftResourceNotFound(copy_str(resource_id)));
        }
        if self.root.resources[k].documents.len() <= 1 {
            return Err(
                LkError::InvalidInput(copy_str("Cannot delete the last document on a resource")),
            );
        }
        let d = find_doc_id(&self.root.resources[k].documents, document_id);
        if d == self.root.resources[k].documents.len() {
            return Err(LkError::DraftDocumentNotFound(copy_str(document_id)));
        }
        let mut res = self.root.resources.remove(k);
        let doc = res.documents.remove(d);
        let ghost newr = res;
        self.root.resources.insert(k, res);
        assert(self.root.resources@ =~= rs.update(k as int, newr));
        Ok(doc.name)
    }

    /// The draft's name and resources, as listed.
    pub fn list_draft(&self) -> (s: DraftSummary)
        ensures
            s.name == self.name,
            s.resource_count == self.root.resources.len(),
            s.resources.len() == self.root.resources.len(),
            forall|i: int|
                0 <= i < s.resources.len() ==> summarizes(
                    #[trigger] s.resources@[i],
                    self.root.resources@[i],
                ),
    {
        let mut out: Vec<DraftResourceSummary> = Vec::new();
        let mut i: usize = 0;
        while i < self.root.resources.len()
            invariant
                i <= self.root.resources.len(),
                out.len() == i,
                forall|j: int|
                    0 <= j < i ==> summarizes(#[trigger] out@[j], self.root.resources@[j]),
            decreases self.root.resources.len() - i,
        {
            let s = summary_of(&self.root.resources[i]);
            out.push(s);
            i = i + 1;
        }
        DraftSummary {
            name: self.name.clone(),
            resource_count: self.root.resources.len(),
            resources: out,
        }
    }
}

// ---------------------------------------------------------------------------
// Creating resources and documents
// ---------------------------------------------------------------------------

/// `{"type": "doc", "content": []}`.
pub open spec fn empty_doc() -> Json {
    typed_with("doc"@, "content"@, Json::Array(seq![]))
}

/// A presentation of the given document type, with nothing else set.
pub open spec fn plain_presentation(p: Option<Presentation>, doc_type: Seq<char>) -> bool {
    p matches Some(pr) && pr.document_type@ == doc_type && pr.calibration is None
        && pr.default_mode is None && pr.disallowed_modes is None
}

/// A document freshly made by the builder for resource `rid`: a fresh id,
/// a locator under the resource, and creation and update times alike.
pub open spec fn fresh_document(
    d: Document,
    rid: Seq<char>,
    name: Seq<char>,
    doc_type: Seq<char>,
    locator: Seq<char>,
    pos: Seq<char>,
    is_hidden: bool,
    is_first: bool,
) -> bool {
    &&& is_record_id(d.id@)
    &&& d.name@ == name
    &&& d.doc_type@ == doc_type
    &&& d.locator_id@ == "lk://resources/"@ + rid + locator
    &&& d.pos@ == pos
    &&& d.is_hidden == is_hidden
    &&& d.is_first == is_first
    &&& d.is_full_width is None
    &&& d.created_at == d.updated_at
    &&& d.created_at@.len() > 0
    &&& d.transforms@.len() == 0
    &&& d.sources@.len() == 0
    &&& plain_presentation(d.presentation, doc_type)
    &&& d.map is None
    &&& d.calendar_id is None
}

/// The resource made by `create_resource`.
pub open spec fn fresh_resource(
    r: Resource,
    rs: Seq<Resource>,
    name: Seq<char>,
    parent: Option<Seq<char>>,
    tags: Seq<String>,
    content: Option<Seq<char>>,
    is_hidden: bool,
    aliases: Seq<String>,
    properties: Seq<Property>,
    icon_color: Option<String>,
    icon_glyph: Option<String>,
    icon_shape: Option<String>,
) -> bool {
    &&& r.schema_version == 1
    &&& is_record_id(r.id@)
    &&& r.name@ == name
    &&& opt_str(r.parent_id) == parent
    &&& r.pos@ == crate::lk::pos::next_key(res_keys(rs))
    &&& r.created_by@ == "mcp-generator"@
    &&& r.is_hidden == is_hidden
    &&& !r.is_locked
    &&& r.show_property_bar
    &&& r.icon_color == icon_color
    &&& r.icon_glyph == icon_glyph
    &&& r.icon_shape == icon_shape
    &&& r.aliases@ == aliases
    &&& r.tags@ == tags
    &&& r.properties@ == properties
    &&& !r.banner.enabled && r.banner.url@.len() == 0 && r.banner.y_position == 50
    &&& r.documents@.len() == 1
    &&& fresh_document(r.documents@[0], r.id@, "Main"@, "page"@, "/docs/main"@, "a0"@, false, true)
    &&& crate::json::opt_json(r.documents@[0].content) == Some(main_content(content, rs))
}

/// The content of a new resource's `Main` page: its markdown as ProseMirror
/// JSON, mentions resolved against `rs`, or an empty document.
pub open spec fn main_content(content: Option<Seq<char>>, rs: Seq<Resource>) -> Json {
    match content {
        Some(md) => md_document(md, rs),
        None => empty_doc(),
    }
}

/// Content made from markdown depends on the draft's resources only through
/// their names and ids.
pub proof fn lemma_content_by_names(
    dt: Seq<char>,
    content: Seq<char>,
    parsed: Result<Json, Seq<char>>,
    a: Seq<Resource>,
    b: Seq<Resource>,
)
    requires
        crate::prosemirror::from_markdown::named(a) == crate::prosemirror::from_markdown::named(b),
    ensures
        added_content(dt, content, parsed, a) == added_content(dt, content, parsed, b),
        forall|c: Option<Seq<char>>| main_content(c, a) == #[trigger] main_content(c, b),
{
}

/// The order keys of resources.
pub open spec fn res_keys(rs: Seq<Resource>) -> Seq<Seq<char>> {
    Seq::new(rs.len(), |i: int| rs[i].pos@)
}

/// The order keys of documents.
pub open spec fn doc_keys(ds: Seq<Document>) -> Seq<Seq<char>> {
    Seq::new(ds.len(), |i: int| ds[i].pos@)
}

fn res_keys_exec(rs: &Vec<Resource>) -> (r: Vec<String>)
    ensures
        str_views(r@) == res_keys(rs@),
{
    let mut r: Vec<String> = Vec::new();
    let mut i: usize = 0;
    while i < rs.len()
        invariant
            i <= rs.len(),
            str_views(r@) == res_keys(rs@).take(i as int),
        decreases rs.len() - i,
    {
        let ghost before = str_views(r@);
        let c = rs[i].pos.clone();
        assert(c@ == rs@[i as int].pos@);
        r.push(c);
        assert(str_views(r@) =~= before.push(c@));
        assert(res_keys(rs@).take(i + 1) =~= res_keys(rs@).take(i as int).push(rs@[i as int].pos@));
        i = i + 1;
    }
    assert(res_keys(rs@).take(rs.len() as int) =~= res_keys(rs@));
    r
}

fn doc_keys_exec(ds: &Vec<Document>) -> (r: Vec<String>)
    ensures
        str_views(r@) == doc_keys(ds@),
{
    let mut r: Vec<String> = Vec::new();
    let mut i: usize = 0;
    while i < ds.len()
        invariant
            i <= ds.len(),
            str_views(r@) == doc_keys(ds@).take(i as int),
        decreases ds.len() - i,
    {
        let ghost before = str_views(r@);
        let c = ds[i].pos.clone();
        assert(c@ == ds@[i as int].pos@);
        r.push(c);
        assert(str_views(r@) =~= before.push(c@));
        assert(doc_keys(ds@).take(i + 1) =~= doc_keys(ds@).take(i as int).push(ds@[i as int].pos@));
        i = i + 1;
    }
    assert(doc_keys(ds@).take(ds.len() as int) =~= doc_keys(ds@));
    r
}

/// A new resource sorts after every resource of the draft (its siblings
/// among them), and a new document after every document of its resource.
pub proof fn law_new_items_sort_last(rs: Seq<Resource>, ds: Seq<Document>)
    ensures
        forall|i: int| 0 <= i < rs.len() ==> seq_lt(#[trigger] rs[i].pos@, crate::lk::pos::next_key(res_keys(rs))),
        forall|i: int| 0 <= i < ds.len() ==> seq_lt(#[trigger] ds[i].pos@, crate::lk::pos::next_key(doc_keys(ds))),
{
    crate::lk::pos::law_next_key_after_all(res_keys(rs));
    crate::lk::pos::law_next_key_after_all(doc_keys(ds));
    assert forall|i: int| 0 <= i < rs.len() implies seq_lt(#[trigger] rs[i].pos@, crate::lk::pos::next_key(res_keys(rs))) by {
        assert(res_keys(rs)[i] == rs[i].pos@);
    }
    assert forall|i: int| 0 <= i < ds.len() implies seq_lt(#[trigger] ds[i].pos@, crate::lk::pos::next_key(doc_keys(ds))) by {
        assert(doc_keys(ds)[i] == ds[i].pos@);
    }
}

/// A parent is named that the draft does not have.
pub open spec fn parent_missing(rs: Seq<Resource>, parent: Option<Seq<char>>) -> bool {
    match parent {
        Some(p) => !has_res(rs, p),
        None => false,
    }
}

fn presentation_of(doc_type: &str) -> (p: Option<Presentation>)
    ensures
        plain_presentation(p, doc_type@),
{
    Some(
        Presentation {
            document_type: copy_str(doc_type),
            calibration: None,
            default_mode: None,
            disallowed_modes: None,
        },
    )
}

impl WorldBuilder {
    /// Creates a resource with one page document, `Main`, whose content is
    /// the given markdown as ProseMirror JSON.
    pub fn create_resource(
        &mut self,
        name: &str,
        parent_id: Option<&str>,
        tags: Option<Vec<String>>,
        content: Option<&str>,
        is_hidden: bool,
        aliases: Vec<String>,
        properties: Vec<Property>,
        icon_color: Option<String>,
        icon_glyph: Option<String>,
        icon_shape: Option<String>,
    ) -> (r: Result<DraftResourceSummary, LkError>)
        ensures
            final(self).name == old(self).name,
            root_keeps(final(self).root, old(self).root),
            parent_missing(old(self).root.resources@, opt_view(parent_id)) ==> *final(self)
                == *old(self) && (r matches Err(LkError::DraftResourceNotFound(s)) && Some(s@)
                == opt_view(parent_id)),
            ({
                let rs = old(self).root.resources@;
                let rs2 = final(self).root.resources@;
                !parent_missing(rs, opt_view(parent_id)) ==> {
                    &&& rs2.len() == rs.len() + 1
                    &&& rs2.take(rs.len() as int) == rs
                    &&& fresh_resource(
                        rs2[rs.len() as int],
                        rs,
                        name@,
                        opt_view(parent_id),
                        match tags {
                            Some(t) => t@,
                            None => seq![],
                        },
                        opt_view(content),
                        is_hidden,
                        aliases@,
                        properties@,
                        icon_color,
                        icon_glyph,
                        icon_shape,
                    )
                    &&& final(self).root.resource_count == rs2.len()
                    &&& r matches Ok(s) && summarizes(s, rs2[rs.len() as int])
                }
            }),
    {
        if let Some(pid) = parent_id {
            if find_resource(&self.root.resources, pid) == self.root.resources.len() {
                return Err(LkError::DraftResourceNotFound(copy_str(pid)));
            }
        }
        let resource_id = generate_id();
        let doc_id = generate_id();
        let now = now_rfc3339();
        let pm_content = match content {
            Some(md) => from_markdown(md, &self.root.resources),
            None => {
                let e: Vec<JsonValue> = Vec::new();
                assert(crate::prosemirror::from_markdown::jsons(e@) =~= Seq::<Json>::empty());
                typed_with_exec("doc", "content", array_of(e))
            },
        };
        let mut locator = cat("lk://resources/", resource_id.as_str());
        locator.push_str("/docs/main");
        let doc = Document {
            id: doc_id,
            name: copy_str("Main"),
            doc_type: copy_str("page"),
            locator_id: locator,
            pos: copy_str("a0"),
            is_hidden: false,
            is_first: true,
            is_full_width: None,
            created_at: now.clone(),
            updated_at: now,
            transforms: Vec::new(),
            sources: Vec::new(),
            presentation: presentation_of("page"),
            content: Some(pm_content),
            map: None,
            calendar_id: None,
        };
        let mut docs: Vec<Document> = Vec::new();
        docs.push(doc);
        let pos = crate::lk::pos::next_key_exec(&res_keys_exec(&self.root.resources));
        let tag_list = match tags {
            Some(t) => t,
            None => Vec::new(),
        };
        let resource = Resource {
            schema_version: 1,
            id: resource_id,
            name: copy_str(name),
            parent_id: match parent_id {
                Some(p) => Some(copy_str(p)),
                None => None,
            },
            pos,
            created_by: copy_str("mcp-generator"),
            is_hidden,
            is_locked: false,
            show_property_bar: true,
            icon_color,
            icon_glyph,
            icon_shape,
            aliases,
            tags: tag_list,
            documents: docs,
            properties,
            banner: Banner { enabled: false, url: String::new(), y_position: 50 },
        };
        let summary = summary_of(&resource);
        let ghost rs = self.root.resources@;
        let ghost nr = resource;
        self.root.resources.push(resource);
        self.root.resource_count = self.root.resources.len();
        proof {
            assert(self.root.resources@.take(rs.len() as int) =~= rs);
            assert(self.root.resources@[rs.len() as int] == nr);
            assert(nr.documents@.len() == 1);
            assert(is_record_id(nr.documents@[0].id@));
            assert(nr.documents@[0].locator_id@ == "lk://resources/"@ + nr.id@ + "/docs/main"@);
            assert(plain_presentation(nr.documents@[0].presentation, "page"@));
            assert(fresh_document(nr.documents@[0], nr.id@, "Main"@, "page"@, "/docs/main"@, "a0"@, false, true));
        }
        Ok(summary)
    }
}

// ---------------------------------------------------------------------------
// Board content read from JSON
// ---------------------------------------------------------------------------

pub open spec fn field_array(v: Json, k: Seq<char>) -> Option<Seq<Json>> {
    match json_get(v, k) {
        Some(Json::Array(a)) => Some(a),
        _ => None,
    }
}

pub open spec fn record_ok(j: Json) -> bool {
    get_str(j, "key"@) is Some && json_get(j, "val"@) is Some
}

/// A board's JSON: an object with `shapes`, `bindings` and `shapesV2`
/// arrays, the last of `{key, val}` records with a string key.
pub open spec fn board_shape_ok(v: Json) -> bool {
    &&& v is Object
    &&& field_array(v, "shapes"@) is Some
    &&& field_array(v, "bindings"@) is Some
    &&& field_array(v, "shapesV2"@) matches Some(a) && forall|i: int|
        0 <= i < a.len() ==> record_ok(#[trigger] a[i])
}

/// The records of a board's JSON.
pub open spec fn board_json_records(v: Json) -> Seq<(Seq<char>, Json)> {
    let a = field_array(v, "shapesV2"@)->0;
    Seq::new(a.len(), |i: int| (get_str(a[i], "key"@)->0, json_get(a[i], "val"@)->0))
}

pub open spec fn board_structure_msg() -> Seq<char> {
    "expected an object with arrays shapes, bindings and shapesV2 of {key, val} records"@
}

fn array_field<'a>(v: &'a JsonValue, k: &str) -> (r: Option<&'a Vec<JsonValue>>)
    ensures
        match field_array(v@, k@) {
            Some(a) => r matches Some(x) && crate::prosemirror::from_markdown::jsons(x@) == a,
            None => r is None,
        },
{
    match v.get(k) {
        Some(JsonValue::Array(a)) => {
            proof {
                crate::prosemirror::from_markdown::lemma_array_view(*a);
            }
            Some(a)
        },
        _ => None,
    }
}

/// Reads a board from its JSON.
pub fn board_from_json(v: &JsonValue) -> (r: Result<BoardContent, String>)
    ensures
        r is Ok <==> board_shape_ok(v@),
        r matches Ok(b) ==> records_model(b.shapes_v2@) == board_json_records(v@),
        r matches Err(m) ==> m@ == board_structure_msg(),
{
    let is_obj = match v {
        JsonValue::Object(_) => true,
        _ => false,
    };
    let shapes = array_field(v, "shapes");
    let bindings = array_field(v, "bindings");
    let recs = array_field(v, "shapesV2");
    if !is_obj || shapes.is_none() || bindings.is_none() || recs.is_none() {
        return Err(copy_str("expected an object with arrays shapes, bindings and shapesV2 of {key, val} records"));
    }
    let shapes = shapes.unwrap();
    let bindings = bindings.unwrap();
    let recs = recs.unwrap();
    let ghost a = field_array(v@, "shapesV2"@)->0;
    let ghost want = board_json_records(v@);
    let mut out: Vec<BoardRecord> = Vec::new();
    let mut i: usize = 0;
    while i < recs.len()
        invariant
            i <= recs.len(),
            a == crate::prosemirror::from_markdown::jsons(recs@),
            a == field_array(v@, "shapesV2"@)->0,
            want == board_json_records(v@),
            forall|j: int| 0 <= j < i ==> record_ok(#[trigger] a[j]),
            records_model(out@) == want.take(i as int),
        decreases recs.len() - i,
    {
        let x = &recs[i];
        assert(a[i as int] == x@);
        let key = x.get_str("key");
        let val = x.get("val");
        if key.is_none() || val.is_none() {
            return Err(copy_str("expected an object with arrays shapes, bindings and shapesV2 of {key, val} records"));
        }
        let rec = BoardRecord { key: key.unwrap().clone(), val: val.unwrap().deep_clone() };
        let ghost m0 = out@;
        out.push(rec);
        proof {
            lemma_records_push_model(m0, rec);
            assert(want.take(i + 1) =~= want.take(i as int).push(want[i as int]));
        }
        i = i + 1;
    }
    assert(want.take(recs.len() as int) =~= want);
    Ok(
        BoardContent {
            shapes: crate::prosemirror::from_markdown::clone_jsons(shapes),
            bindings: crate::prosemirror::from_markdown::clone_jsons(bindings),
            shapes_v2: out,
        },
    )
}

proof fn lemma_records_push_model(v: Seq<BoardRecord>, x: BoardRecord)
    ensures
        records_model(v.push(x)) == records_model(v).push((x.key@, x.val@)),
{
    assert(records_model(v.push(x)) =~= records_model(v).push((x.key@, x.val@)));
}

/// What `add_document` stores as a document's content, or its error.
pub open spec fn added_content(
    doc_type: Seq<char>,
    content: Seq<char>,
    parsed: Result<Json, Seq<char>>,
    rs: Seq<Resource>,
) -> Result<Option<Json>, Seq<char>> {
    if doc_type == "page"@ {
        Ok(Some(md_document(content, rs)))
    } else if doc_type == "board"@ {
        match parsed {
            Err(e) => Err("invalid board JSON: "@ + e),
            Ok(v) => if !board_shape_ok(v) {
                Err("invalid board structure: "@ + board_structure_msg())
            } else {
                match records_error(board_json_records(v), 0) {
                    Some(m) => Err(m),
                    None => Ok(Some(v)),
                }
            },
        }
    } else {
        match parsed {
            Ok(v) => Ok(Some(v)),
            Err(_) => Ok(None),
        }
    }
}

pub open spec fn parsed_view(p: Result<JsonValue, String>) -> Result<Json, Seq<char>> {
    match p {
        Ok(v) => Ok(v@),
        Err(e) => Err(e@),
    }
}

impl WorldBuilder {
    /// Adds a document to a draft resource. A page's content is markdown; a
    /// board's is its JSON, which must hold valid records; other types keep
    /// their content's JSON when it parses. `parsed` is the JSON parse of
    /// `content` (its error text where it does not parse).
    pub fn add_document(
        &mut self,
        resource_id: &str,
        name: &str,
        content: &str,
        doc_type: Option<&str>,
        is_hidden: bool,
        parsed: Result<JsonValue, String>,
    ) -> (r: Result<DraftDocumentSummary, LkError>)
        ensures
            final(self).name == old(self).name,
            final(self).root.resource_count == old(self).root.resource_count,
            root_keeps(final(self).root, old(self).root),
            ({
                let rs = old(self).root.resources@;
                let rs2 = final(self).root.resources@;
                let k = res_index(rs, resource_id@);
                let dt = match doc_type {
                    Some(t) => t@,
                    None => "page"@,
                };
                let added = added_content(dt, content@, parsed_view(parsed), rs);
                if !has_res(rs, resource_id@) {
                    *final(self) == *old(self) && (r matches Err(LkError::DraftResourceNotFound(s))
                        && s@ == resource_id@)
                } else if added is Err {
                    *final(self) == *old(self) && (r matches Err(LkError::InvalidInput(s)) && Err::<
                        Option<Json>,
                        Seq<char>,
                    >(s@) == added)
                } else {
                    let ds = rs[k].documents@;
                    let ds2 = rs2[k].documents@;
                    &&& rs2.len() == rs.len()
                    &&& forall|j: int| 0 <= j < rs.len() && j != k ==> rs2[j] == rs[j]
                    &&& same_but_documents(rs[k], rs2[k])
                    &&& ds2.len() == ds.len() + 1
                    &&& ds2.take(ds.len() as int) == ds
                    &&& fresh_document(
                        ds2[ds.len() as int],
                        resource_id@,
                        name@,
                        dt,
                        "/docs/"@ + ds2[ds.len() as int].id@,
                        crate::lk::pos::next_key(doc_keys(ds)),
                        is_hidden,
                        false,
                    )
                    &&& Ok::<Option<Json>, Seq<char>>(crate::json::opt_json(ds2[ds.len() as int].content)) == added
                    &&& r matches Ok(s) && s.id == ds2[ds.len() as int].id && s.name@ == name@
                        && s.doc_type@ == dt
                }
            }),
    {
        let ghost rs = self.root.resources@;
        let k = find_resource(&self.root.resources, resource_id);
        if k == self.root.resources.len() {
            return Err(LkError::DraftResourceNotFound(copy_str(resource_id)));
        }
        let dtype: &str = match doc_type {
            Some(t) => t,
            None => "page",
        };
        let pm_content: Option<JsonValue> = if str_eq(dtype, "page") {
            Some(from_markdown(content, &self.root.resources))
        } else if str_eq(dtype, "board") {
            let value = match parsed {
                Ok(v) => v,
                Err(e) => {
                    return Err(LkError::InvalidInput(cat("invalid board JSON: ", e.as_str())));
                },
            };
            let board = match board_from_json(&value) {
                Ok(b) => b,
                Err(e) => {
                    return Err(LkError::InvalidInput(cat("invalid board structure: ", e.as_str())));
                },
            };
            match validate_board_content(&board) {
                Ok(()) => {},
                Err(e) => {
                    return Err(e);
                },
            }
            Some(value)
        } else {
            match parsed {
                Ok(v) => Some(v),
                Err(_) => None,
            }
        };
        let doc_id = generate_id();
        let now = now_rfc3339();
        let mut locator = cat("lk://resources/", resource_id);
        locator.push_str("/docs/");
        locator.push_str(doc_id.as_str());
        let pos = crate::lk::pos::next_key_exec(&doc_keys_exec(&self.root.resources[k].documents));
        let doc = Document {
            id: doc_id.clone(),
            name: copy_str(name),
            doc_type: copy_str(dtype),
            locator_id: locator,
            pos,
            is_hidden,
            is_first: false,
            is_full_width: None,
            created_at: now.clone(),
            updated_at: now,
            transforms: Vec::new(),
            sources: Vec::new(),
            presentation: presentation_of(dtype),
            content: pm_content,
            map: None,
            calendar_id: None,
        };
        let ghost nd = doc;
        let mut res = self.root.resources.remove(k);
        let ghost ds = res.documents@;
        res.documents.push(doc);
        let ghost newr = res;
        self.root.resources.insert(k, res);
        proof {
            assert(self.root.resources@ =~= rs.update(k as int, newr));
            assert(newr.documents@.take(ds.len() as int) =~= ds);
            assert(newr.documents@[ds.len() as int] == nd);
            assert(nd.locator_id@ == "lk://resources/"@ + resource_id@ + ("/docs/"@ + nd.id@));
        }
        Ok(DraftDocumentSummary { id: doc_id, name: copy_str(name), doc_type: copy_str(dtype) })
    }

    /// Sets the content of a draft document, given as markdown: the document
    /// with the given id, or else the first page.
    pub fn set_content(&mut self, resource_id: &str, document_id: Option<&str>, content: &str) -> (r:
        Result<(), LkError>)
        ensures
            final(self).name == old(self).name,
            final(self).root.resource_count == old(self).root.resource_count,
            root_keeps(final(self).root, old(self).root),
            ({
                let rs = old(self).root.resources@;
                let rs2 = final(self).root.resources@;
                let k = res_index(rs, resource_id@);
                let ds = rs[k].documents@;
                let d = doc_pick(ds, opt_view(document_id));
                if !has_res(rs, resource_id@) {
                    *final(self) == *old(self) && (r matches Err(LkError::DraftResourceNotFound(s))
                        && s@ == resource_id@)
                } else if d == ds.len() {
                    *final(self) == *old(self) && (r matches Err(LkError::DraftDocumentNotFound(s))
                        && s@ == doc_missing(opt_view(document_id)))
                } else {
                    r is Ok && content_set(rs, rs2, k, d, content@)
                }
            }),
    {
        let ghost rs = self.root.resources@;
        let pm_content = from_markdown(content, &self.root.resources);
        let k = find_resource(&self.root.resources, resource_id);
        if k == self.root.resources.len() {
            return Err(LkError::DraftResourceNotFound(copy_str(resource_id)));
        }
        let d = find_doc(&self.root.resources[k].documents, document_id);
        if d == self.root.resources[k].documents.len() {
            return match document_id {
                Some(did) => Err(LkError::DraftDocumentNotFound(copy_str(did))),
                None => Err(LkError::DraftDocumentNotFound(copy_str("no page document found"))),
            };
        }
        let mut res = self.root.resources.remove(k);
        let ghost ds = res.documents@;
        let mut doc = res.documents.remove(d);
        doc.content = Some(pm_content);
        doc.updated_at = now_rfc3339();
        let ghost nd = doc;
        res.documents.insert(d, doc);
        let ghost newr = res;
        self.root.resources.insert(k, res);
        proof {
            assert(self.root.resources@ =~= rs.update(k as int, newr));
            assert(newr.documents@ =~= ds.update(d as int, nd));
        }
        Ok(())
    }
}

/// `rs2` is `rs` with document `d` of resource `k` holding markdown `md`
/// (as ProseMirror JSON, its mentions resolved against `rs`), all else kept.
pub open spec fn content_set(rs: Seq<Resource>, rs2: Seq<Resource>, k: int, d: int, md: Seq<char>) -> bool {
    let ds = rs[k].documents@;
    let ds2 = rs2[k].documents@;
    &&& rs2.len() == rs.len()
    &&& forall|j: int| 0 <= j < rs.len() && j != k ==> rs2[j] == rs[j]
    &&& same_but_documents(rs[k], rs2[k])
    &&& ds2.len() == ds.len()
    &&& forall|j: int| 0 <= j < ds.len() && j != d ==> ds2[j] == ds[j]
    &&& crate::json::opt_json(ds2[d].content) == Some(md_document(md, rs))
    &&& same_but_content(ds[d], ds2[d])
}

/// A read gives back what a write wrote: after `set_content` has set a
/// document, looking the document up again the same way
/// (`get_draft_document` with the same resource id and document reference)
/// finds it, holding the new content.
pub proof fn law_set_content_then_read(
    rs: Seq<Resource>,
    rs2: Seq<Resource>,
    resource_id: Seq<char>,
    document_id: Option<Seq<char>>,
    md: Seq<char>,
)
    requires
        has_res(rs, resource_id),
        doc_pick(rs[res_index(rs, resource_id)].documents@, document_id) < rs[res_index(
            rs,
            resource_id,
        )].documents@.len(),
        content_set(
            rs,
            rs2,
            res_index(rs, resource_id),
            doc_pick(rs[res_index(rs, resource_id)].documents@, document_id),
            md,
        ),
    ensures
        has_res(rs2, resource_id),
        res_index(rs2, resource_id) == res_index(rs, resource_id),
        ({
            let ds2 = rs2[res_index(rs2, resource_id)].documents@;
            let d2 = doc_pick(ds2, document_id);
            &&& d2 == doc_pick(rs[res_index(rs, resource_id)].documents@, document_id)
            &&& d2 < ds2.len()
            &&& crate::json::opt_json(ds2[d2].content) == Some(md_document(md, rs))
        }),
{
    let k = res_index(rs, resource_id);
    let ds = rs[k].documents@;
    let d = doc_pick(ds, document_id);
    let ds2 = rs2[k].documents@;
    lemma_key_index(res_ids(rs), resource_id, 0);
    let i = choose|i: int| 0 <= i < rs.len() && (#[trigger] rs[i]).id@ == resource_id;
    assert(res_ids(rs)[i] == resource_id);
    assert(res_ids(rs2) =~= res_ids(rs)) by {
        assert forall|j: int| 0 <= j < rs.len() implies res_ids(rs2)[j] == res_ids(rs)[j] by {
            if j != k {
                assert(rs2[j] == rs[j]);
            }
        }
    }
    assert(rs2[k].id@ == resource_id);
    assert(doc_ids(ds2) =~= doc_ids(ds)) by {
        assert forall|j: int| 0 <= j < ds.len() implies doc_ids(ds2)[j] == doc_ids(ds)[j] by {
            if j != d {
                assert(ds2[j] == ds[j]);
            }
        }
    }
    assert(doc_types(ds2) =~= doc_types(ds)) by {
        assert forall|j: int| 0 <= j < ds.len() implies doc_types(ds2)[j] == doc_types(ds)[j] by {
            if j != d {
                assert(ds2[j] == ds[j]);
            }
        }
    }
}

/// A created resource is found again by its id, when that id is new to the
/// draft: `create_resource` appends it after the resources that were there.
pub proof fn law_created_resource_found(rs: Seq<Resource>, rs2: Seq<Resource>)
    requires
        rs2.len() == rs.len() + 1,
        rs2.take(rs.len() as int) == rs,
        !has_res(rs, rs2[rs.len() as int].id@),
    ensures
        has_res(rs2, rs2[rs.len() as int].id@),
        res_index(rs2, rs2[rs.len() as int].id@) == rs.len(),
{
    let n = rs.len() as int;
    let id = rs2[n].id@;
    lemma_key_index(res_ids(rs2), id, 0);
    assert(res_ids(rs2)[n] == id);
    assert forall|j: int| 0 <= j < n implies res_ids(rs2)[j] != id by {
        assert(rs2[j] == rs[j]);
        if rs[j].id@ == id {
            assert(has_res(rs, id));
        }
    }
}

/// An added document is found again by its id, when that id is new to its
/// resource: `add_document` appends it after the documents that were there.
pub proof fn law_added_document_found(ds: Seq<Document>, ds2: Seq<Document>)
    requires
        ds2.len() == ds.len() + 1,
        ds2.take(ds.len() as int) == ds,
        !doc_ids(ds).contains(ds2[ds.len() as int].id@),
    ensures
        doc_pick(ds2, Some(ds2[ds.len() as int].id@)) == ds.len(),
{
    let n = ds.len() as int;
    let id = ds2[n].id@;
    lemma_key_index(doc_ids(ds2), id, 0);
    assert(doc_ids(ds2)[n] == id);
    assert forall|j: int| 0 <= j < n implies doc_ids(ds2)[j] != id by {
        assert(ds2[j] == ds[j]);
        if ds[j].id@ == id {
            assert(doc_ids(ds)[j] == id);
        }
    }
}

/// `b` is `a` but for its content and update time.
pub open spec fn same_but_content(a: Document, b: Document) -> bool {
    &&& a.id == b.id
    &&& a.name == b.name
    &&& a.doc_type == b.doc_type
    &&& a.locator_id == b.locator_id
    &&& a.pos == b.pos
    &&& a.is_hidden == b.is_hidden
    &&& a.is_first == b.is_first
    &&& a.is_full_width == b.is_full_width
    &&& a.created_at == b.created_at
    &&& a.transforms == b.transforms
    &&& a.sources == b.sources
    &&& a.presentation == b.presentation
    &&& a.map == b.map
    &&& a.calendar_id == b.calendar_id
}

impl WorldBuilder {
    /// Stamps the draft for export: the time of export, the count of its
    /// resources, and the hash of `resources_json`, the compact JSON of its
    /// resources.
    pub fn prepare_export(&mut self, resources_json: &str)
        ensures
            final(self).name == old(self).name,
            final(self).root.resources == old(self).root.resources,
            final(self).root.version == old(self).root.version,
            final(self).root.export_id == old(self).root.export_id,
            final(self).root.calendars == old(self).root.calendars,
            final(self).root.resource_count == old(self).root.resources.len(),
            final(self).root.hash@ == crate::lk::io::hex_lower(crate::lk::io::sha256(resources_json@)),
            final(self).root.hash@.len() == 64,
            final(self).root.exported_at@.len() > 0,
    {
        self.root.exported_at = now_rfc3339();
        self.root.resource_count = self.root.resources.len();
        self.root.hash = crate::lk::io::compute_hash(resources_json);
    }
}

} // verus!
