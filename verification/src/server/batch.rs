//! Creating resources of a draft world: tags merged with a template's, and
//! many resources, with their documents, in one request.

use vstd::prelude::*;
use crate::json::{Json, JsonValue, clone_opt_json, key_index, opt_json, opt_str};
use crate::lk::LkError;
use crate::lk::builder::{
    WorldBuilder, DraftDocumentSummary, added_content, has_res, lemma_content_by_names, main_content,
    opt_view, parsed_view, root_keeps, same_but_documents,
};
use crate::prosemirror::from_markdown::named;
use crate::lk::schema::{Property, Resource};
use crate::lk::store::{
    WorldStore, TemplateIcon, resolve_spec_idx, template_found, template_lower_names,
    template_positions, template_result,
};
use crate::server::{BatchDocumentSpec, BatchResourceSpec, CreateResourceParams};
use crate::text::{
    clone_opt_string, clone_strings, copy_str, eq_ignore_ascii, eq_ignore_ascii_case, lowercase,
    str_eq, str_views, to_lowercase,
};

verus! {

// ---------------------------------------------------------------------------
// Tags
// ---------------------------------------------------------------------------

/// Some tag of `m` is `t` up to ASCII case.
pub open spec fn has_tag_like(m: Seq<Seq<char>>, t: Seq<char>) -> bool {
    exists|i: int| 0 <= i < m.len() && eq_ignore_ascii(#[trigger] m[i], t)
}

/// `tags` followed by each tag of `extra` that is not there yet, up to ASCII
/// case.
pub open spec fn merged_tags(tags: Seq<Seq<char>>, extra: Seq<Seq<char>>) -> Seq<Seq<char>>
    decreases extra.len(),
{
    if extra.len() == 0 {
        tags
    } else {
        let m = merged_tags(tags, extra.drop_last());
        if has_tag_like(m, extra.last()) {
            m
        } else {
            m.push(extra.last())
        }
    }
}

/// The tags given, then each template tag that is not among them (ASCII case
/// aside).
pub fn merge_tags(tags: Vec<String>, extra: &Vec<String>) -> (r: Vec<String>)
    ensures
        str_views(r@) == merged_tags(str_views(tags@), str_views(extra@)),
{
    let ghost base = str_views(tags@);
    let ghost ex = str_views(extra@);
    let mut out = tags;
    let mut i: usize = 0;
    while i < extra.len()
        invariant
            i <= extra.len(),
            base == str_views(tags@),
            ex == str_views(extra@),
            str_views(out@) == merged_tags(base, ex.take(i as int)),
        decreases extra.len() - i,
    {
        assert(ex.take(i + 1).drop_last() =~= ex.take(i as int));
        assert(ex.take(i + 1).last() == extra@[i as int]@);
        let ghost m = str_views(out@);
        let t = &extra[i];
        let mut found = false;
        let mut j: usize = 0;
        while j < out.len()
            invariant
                j <= out.len(),
                m == str_views(out@),
                found == (exists|q: int| 0 <= q < j && eq_ignore_ascii(#[trigger] m[q], t@)),
            decreases out.len() - j,
        {
            if eq_ignore_ascii_case(out[j].as_str(), t.as_str()) {
                found = true;
            }
            proof {
                if found {
                    if eq_ignore_ascii(m[j as int], t@) {
                        assert(exists|q: int| 0 <= q < j + 1 && eq_ignore_ascii(#[trigger] m[q], t@));
                    } else {
                        let q = choose|q: int| 0 <= q < j && eq_ignore_ascii(#[trigger] m[q], t@);
                        assert(0 <= q < j + 1 && eq_ignore_ascii(m[q], t@));
                    }
                }
            }
            j = j + 1;
        }
        if !found {
            let c = t.clone();
            out.push(c);
            assert(str_views(out@) =~= m.push(t@));
        }
        i = i + 1;
    }
    assert(ex.take(extra.len() as int) =~= ex);
    out
}

/// Merging keeps the given tags first and in order, adds only template tags,
/// and leaves no template tag unmatched (up to ASCII case).
pub proof fn law_merged_tags(tags: Seq<Seq<char>>, extra: Seq<Seq<char>>)
    ensures
        merged_tags(tags, extra).len() >= tags.len(),
        merged_tags(tags, extra).take(tags.len() as int) == tags,
        forall|k: int|
            0 <= k < extra.len() ==> has_tag_like(merged_tags(tags, extra), #[trigger] extra[k]),
        forall|k: int|
            tags.len() <= k < merged_tags(tags, extra).len() ==> extra.contains(
                #[trigger] merged_tags(tags, extra)[k],
            ),
    decreases extra.len(),
{
    if extra.len() > 0 {
        let e0 = extra.drop_last();
        law_merged_tags(tags, e0);
        let m = merged_tags(tags, e0);
        let t = extra.last();
        let r = merged_tags(tags, extra);
        assert forall|k: int| 0 <= k < extra.len() implies has_tag_like(r, #[trigger] extra[k]) by {
            if k < e0.len() {
                assert(e0[k] == extra[k]);
                assert(has_tag_like(m, e0[k]));
                let q = choose|q: int| 0 <= q < m.len() && eq_ignore_ascii(#[trigger] m[q], e0[k]);
                assert(r[q] == m[q]);
            } else if !has_tag_like(m, t) {
                assert(r[m.len() as int] == t);
                assert(eq_ignore_ascii(t, t));
            }
        }
        assert forall|k: int| tags.len() <= k < r.len() implies extra.contains(#[trigger] r[k]) by {
            if k < m.len() {
                assert(e0.contains(m[k]));
                let q = choose|q: int| 0 <= q < e0.len() && e0[q] == m[k];
                assert(extra[q] == m[k]);
            } else {
                assert(extra[extra.len() - 1] == t);
            }
        }
        assert(r.take(tags.len() as int) =~= m.take(tags.len() as int));
    } else {
        assert(tags.take(tags.len() as int) =~= tags);
    }
}

// ---------------------------------------------------------------------------
// Templates of a batch
// ---------------------------------------------------------------------------

/// A template looked up for a batch, under its lowercased name.
#[derive(Debug, Clone)]
pub struct TemplateData {
    pub key: String,
    pub properties: Vec<Property>,
    pub tags: Vec<String>,
    pub icon: TemplateIcon,
}

/// The lowercased template names of a batch, each once, in order of first
/// use.
pub open spec fn template_keys(specs: Seq<BatchResourceSpec>) -> Seq<Seq<char>>
    decreases specs.len(),
{
    if specs.len() == 0 {
        seq![]
    } else {
        let ks = template_keys(specs.drop_last());
        match specs.last().template {
            Some(t) => if ks.contains(lowercase(t@)) {
                ks
            } else {
                ks.push(lowercase(t@))
            },
            None => ks,
        }
    }
}

pub open spec fn data_keys(c: Seq<TemplateData>) -> Seq<Seq<char>> {
    Seq::new(c.len(), |i: int| c[i].key@)
}

/// `e` is what the store gives for a template of the batch.
pub open spec fn entry_from_store(
    ws: Seq<(String, crate::lk::schema::LkRoot)>,
    world: Option<Seq<char>>,
    specs: Seq<BatchResourceSpec>,
    e: TemplateData,
) -> bool {
    exists|j: int|
        0 <= j < specs.len() && (#[trigger] specs[j].template matches Some(n) && lowercase(n@)
            == e.key@ && template_result(ws, world, n@, Ok((e.properties, e.tags, e.icon))))
}

/// Every template that the batch names is found.
pub open spec fn all_templates_found(
    ws: Seq<(String, crate::lk::schema::LkRoot)>,
    world: Option<Seq<char>>,
    specs: Seq<BatchResourceSpec>,
) -> bool {
    forall|j: int|
        0 <= j < specs.len() ==> (#[trigger] specs[j].template matches Some(n) ==> template_found(
            ws,
            world,
            n@,
        ))
}

/// A template with this lowercased name is found.
pub open spec fn template_key_found(
    ws: Seq<(String, crate::lk::schema::LkRoot)>,
    world: Option<Seq<char>>,
    key: Seq<char>,
) -> bool {
    match resolve_spec_idx(ws, world) {
        None => false,
        Some(k) => {
            let rs = ws[k].1.resources@;
            key_index(template_lower_names(rs), key, 0) < template_positions(rs, rs.len() as int).len()
        },
    }
}

proof fn lemma_template_result_ok(
    ws: Seq<(String, crate::lk::schema::LkRoot)>,
    world: Option<Seq<char>>,
    n: Seq<char>,
    r: Result<(Vec<Property>, Vec<String>, TemplateIcon), LkError>,
)
    requires
        template_result(ws, world, n, r),
    ensures
        r is Ok <==> template_found(ws, world, n),
{
}

/// Looks up, once each, the templates that a batch names; the first that is
/// not found fails the whole batch.
pub fn template_cache(store: &WorldStore, template_world: &Option<String>, specs: &Vec<
    BatchResourceSpec,
>) -> (r: Result<Vec<TemplateData>, LkError>)
    ensures
        r is Ok <==> all_templates_found(store.worlds@, opt_str(*template_world), specs@),
        r matches Ok(c) ==> data_keys(c@) == template_keys(specs@) && forall|i: int|
            0 <= i < c.len() ==> entry_from_store(
                store.worlds@,
                opt_str(*template_world),
                specs@,
                #[trigger] c@[i],
            ),
        r matches Err(e) ==> exists|j: int|
            0 <= j < specs.len() && (#[trigger] specs@[j].template matches Some(n)
                && template_result(store.worlds@, opt_str(*template_world), n@, Err(e)))
                && all_templates_found(store.worlds@, opt_str(*template_world), specs@.take(j)),
{
    let ghost ws = store.worlds@;
    let ghost world = opt_str(*template_world);
    let mut cache: Vec<TemplateData> = Vec::new();
    let mut i: usize = 0;
    assert(data_keys(cache@) =~= template_keys(specs@.take(0)));
    while i < specs.len()
        invariant
            i <= specs.len(),
            ws == store.worlds@,
            world == opt_str(*template_world),
            data_keys(cache@) == template_keys(specs@.take(i as int)),
            forall|q: int| 0 <= q < cache.len() ==> entry_from_store(ws, world, specs@, #[trigger] cache@[q]),
            forall|q: int| 0 <= q < cache.len() ==> template_key_found(ws, world, #[trigger] cache@[q].key@),
            all_templates_found(ws, world, specs@.take(i as int)),
        decreases specs.len() - i,
    {
        assert(specs@.take(i + 1).drop_last() =~= specs@.take(i as int));
        assert(specs@.take(i + 1).last() == specs@[i as int]);
        if let Some(t) = &specs[i].template {
            let key = to_lowercase(t.as_str());
            let mut p: usize = 0;
            while p < cache.len() && !str_eq(cache[p].key.as_str(), key.as_str())
                invariant
                    p <= cache.len(),
                    forall|q: int| 0 <= q < p ==> (#[trigger] cache@[q]).key@ != key@,
                decreases cache.len() - p,
            {
                p = p + 1;
            }
            if p == cache.len() {
                proof {
                    assert(!data_keys(cache@).contains(key@)) by {
                        if data_keys(cache@).contains(key@) {
                            let q = choose|q: int| 0 <= q < cache.len() && data_keys(cache@)[q] == key@;
                            assert(cache@[q].key@ == key@);
                        }
                    }
                }
                match store.get_template_properties(template_world, t.as_str()) {
                    Ok((props, tags, icon)) => {
                        let ghost res = Ok::<(Vec<Property>, Vec<String>, TemplateIcon), LkError>((props, tags, icon));
                        proof {
                            lemma_template_result_ok(ws, world, t@, res);
                        }
                        let e = TemplateData { key, properties: props, tags, icon };
                        let ghost ev = e;
                        cache.push(e);
                        proof {
                            assert(data_keys(cache@) =~= data_keys(cache@.drop_last()).push(ev.key@));
                            assert(cache@.drop_last() =~= cache@.take(cache.len() - 1));
                            assert(entry_from_store(ws, world, specs@, ev)) by {
                                assert(specs@[i as int].template == Some(*t));
                            }
                            assert forall|q: int| 0 <= q < cache.len() implies template_key_found(ws, world, #[trigger] cache@[q].key@) by {
                                if q == cache.len() - 1 {
                                    assert(template_found(ws, world, t@));
                                }
                            }
                        }
                    },
                    Err(e) => {
                        proof {
                            lemma_template_result_ok(ws, world, t@, Err(e));
                            assert(!all_templates_found(ws, world, specs@)) by {
                                assert(specs@[i as int].template == Some(*t));
                            }
                            assert(specs@[i as int].template == Some(*t));
                            assert(template_result(ws, world, t@, Err(e)));
                        }
                        return Err(e);
                    },
                }
            } else {
                proof {
                    assert(data_keys(cache@)[p as int] == key@);
                    assert(template_key_found(ws, world, cache@[p as int].key@));
                }
            }
            proof {
                assert forall|j: int| 0 <= j < i + 1 implies (#[trigger] specs@.take(i + 1)[j].template matches Some(n)
                    ==> template_found(ws, world, n@)) by {
                    if j == i {
                        assert(specs@.take(i + 1)[j] == specs@[i as int]);
                    } else {
                        assert(specs@.take(i + 1)[j] == specs@.take(i as int)[j]);
                    }
                }
            }
        } else {
            proof {
                assert forall|j: int| 0 <= j < i + 1 implies (#[trigger] specs@.take(i + 1)[j].template matches Some(n)
                    ==> template_found(ws, world, n@)) by {
                    if j < i {
                        assert(specs@.take(i + 1)[j] == specs@.take(i as int)[j]);
                    }
                }
            }
        }
        i = i + 1;
    }
    assert(specs@.take(specs.len() as int) =~= specs@);
    Ok(cache)
}

// ---------------------------------------------------------------------------
// A batch of resources
// ---------------------------------------------------------------------------

/// A resource made by a batch, with the documents added to it.
#[derive(Debug, Clone)]
pub struct BatchCreated {
    pub id: String,
    pub name: String,
    pub documents: Vec<DraftDocumentSummary>,
}

/// The template of the batch cache that a spec names, if any.
pub open spec fn spec_template(s: BatchResourceSpec, c: Seq<TemplateData>) -> Option<TemplateData> {
    match s.template {
        Some(t) => {
            let k = key_index(data_keys(c), lowercase(t@), 0);
            if 0 <= k < c.len() {
                Some(c[k])
            } else {
                None
            }
        },
        None => None,
    }
}

pub open spec fn given_tags(s: BatchResourceSpec) -> Seq<Seq<char>> {
    match s.tags {
        Some(t) => str_views(t@),
        None => seq![],
    }
}

/// The tags of a spec's resource: its own, then its template's.
pub open spec fn batch_tags(s: BatchResourceSpec, c: Seq<TemplateData>) -> Seq<Seq<char>> {
    match spec_template(s, c) {
        Some(e) => merged_tags(given_tags(s), str_views(e.tags@)),
        None => given_tags(s),
    }
}

pub open spec fn prop_model(p: Property) -> (Seq<char>, Seq<char>, Seq<char>, Seq<char>, Option<bool>, Option<bool>, Option<Json>) {
    (p.id@, p.pos@, p.prop_type@, p.title@, p.is_hidden, p.is_title_hidden, opt_json(p.data))
}

pub open spec fn props_model(ps: Seq<Property>) -> Seq<(Seq<char>, Seq<char>, Seq<char>, Seq<char>, Option<bool>, Option<bool>, Option<Json>)> {
    Seq::new(ps.len(), |i: int| prop_model(ps[i]))
}

/// `r` is the resource that the batch makes for spec `s`, under `parent`
/// (its documents aside).
pub open spec fn batch_resource(
    r: Resource,
    s: BatchResourceSpec,
    c: Seq<TemplateData>,
    parent: Option<Seq<char>>,
) -> bool {
    &&& r.name@ == s.name@
    &&& opt_str(r.parent_id) == parent
    &&& str_views(r.tags@) == batch_tags(s, c)
    &&& r.is_hidden == match s.is_hidden {
        Some(h) => h,
        None => true,
    }
    &&& str_views(r.aliases@) == match s.aliases {
        Some(a) => str_views(a@),
        None => seq![],
    }
    &&& match spec_template(s, c) {
        Some(e) => {
            &&& props_model(r.properties@) == props_model(e.properties@)
            &&& opt_str(r.icon_color) == opt_str(e.icon.icon_color)
            &&& opt_str(r.icon_glyph) == opt_str(e.icon.icon_glyph)
            &&& opt_str(r.icon_shape) == opt_str(e.icon.icon_shape)
        },
        None => r.properties.len() == 0 && r.icon_color is None && r.icon_glyph is None
            && r.icon_shape is None,
    }
}

pub open spec fn spec_docs(s: BatchResourceSpec) -> Seq<BatchDocumentSpec> {
    match s.documents {
        Some(d) => d@,
        None => seq![],
    }
}

pub open spec fn doc_type_of(d: BatchDocumentSpec) -> Seq<char> {
    match d.doc_type {
        Some(t) => t@,
        None => "page"@,
    }
}

pub open spec fn parsed_at(p: Seq<Result<JsonValue, String>>, d: int) -> Result<Json, Seq<char>> {
    if 0 <= d < p.len() {
        parsed_view(p[d])
    } else {
        Err(seq![])
    }
}

/// Every document of the spec would be accepted.
pub open spec fn docs_ok(s: BatchResourceSpec, p: Seq<Result<JsonValue, String>>) -> bool {
    forall|d: int|
        0 <= d < spec_docs(s).len() ==> (#[trigger] added_content(
            doc_type_of(spec_docs(s)[d]),
            spec_docs(s)[d].content@,
            parsed_at(p, d),
            seq![],
        )) is Ok
}

pub open spec fn doc_hidden_of(d: BatchDocumentSpec) -> bool {
    match d.is_hidden {
        Some(h) => h,
        None => false,
    }
}

/// The documents of `r` are its `Main` page, then the first `n` documents
/// of `ds` (by name, type and visibility), in order, each stamped with its
/// time of creation.
pub open spec fn holds_docs(r: Resource, ds: Seq<BatchDocumentSpec>, n: int) -> bool {
    &&& r.documents@.len() == n + 1
    &&& r.documents@[0].name@ == "Main"@
    &&& r.documents@[0].created_at@.len() > 0
    &&& forall|q: int|
        0 <= q < n ==> (#[trigger] r.documents@[q + 1]).name@ == ds[q].name@
            && r.documents@[q + 1].doc_type@ == doc_type_of(ds[q])
            && r.documents@[q + 1].is_hidden == doc_hidden_of(ds[q])
            && r.documents@[q + 1].created_at@.len() > 0
}

/// The `Main` page of `r` holds the spec's markdown as ProseMirror JSON
/// (an empty document without markdown), mentions resolved against `pre`,
/// the draft's resources before `r` was made.
pub open spec fn main_of(r: Resource, s: BatchResourceSpec, pre: Seq<Resource>) -> bool {
    &&& r.documents@.len() >= 1
    &&& crate::json::opt_json(r.documents@[0].content) == Some(main_content(opt_str(s.content), pre))
}

/// The first `n` documents added to `r` hold the content that
/// `add_document` makes of the spec's documents, mentions resolved against
/// `pre` and `r`.
pub open spec fn docs_content(
    r: Resource,
    s: BatchResourceSpec,
    p: Seq<Result<JsonValue, String>>,
    pre: Seq<Resource>,
    n: int,
) -> bool {
    forall|q: int|
        0 <= q < n ==> Ok::<Option<Json>, Seq<char>>(
            crate::json::opt_json((#[trigger] r.documents@[q + 1]).content),
        ) == added_content(
            doc_type_of(spec_docs(s)[q]),
            spec_docs(s)[q].content@,
            parsed_at(p, q),
            pre.push(r),
        )
}

proof fn lemma_named_same(a: Seq<Resource>, b: Seq<Resource>)
    requires
        a.len() == b.len(),
        forall|k: int| 0 <= k < a.len() ==> same_but_documents(a[k], #[trigger] b[k]),
    ensures
        named(a) == named(b),
{
    assert(named(a) =~= named(b));
}

proof fn lemma_named_prefix(a: Seq<Resource>, b: Seq<Resource>, m: int)
    requires
        0 <= m <= a.len(),
        m <= b.len(),
        forall|k: int| 0 <= k < a.len() ==> same_but_documents(a[k], #[trigger] b[k]),
    ensures
        named(a.take(m)) == named(b.take(m)),
{
    assert forall|k: int| 0 <= k < m implies named(a.take(m))[k] == named(b.take(m))[k] by {
        assert(a.take(m)[k] == a[k]);
        assert(b.take(m)[k] == b[k]);
        assert(same_but_documents(a[k], b[k]));
    }
    assert(named(a.take(m)) =~= named(b.take(m)));
}

proof fn lemma_contents_pre(
    r: Resource,
    s: BatchResourceSpec,
    p: Seq<Result<JsonValue, String>>,
    pre1: Seq<Resource>,
    pre2: Seq<Resource>,
    n: int,
)
    requires
        named(pre1) == named(pre2),
    ensures
        main_of(r, s, pre1) == main_of(r, s, pre2),
        docs_content(r, s, p, pre1, n) == docs_content(r, s, p, pre2, n),
{
    assert(named(pre1.push(r)) =~= named(pre2.push(r))) by {
        assert(named(pre1).len() == pre1.len());
        assert(named(pre2).len() == pre2.len());
        assert forall|j: int| 0 <= j < pre1.len() implies named(pre1.push(r))[j] == named(pre2.push(r))[j] by {
            assert(named(pre1)[j] == named(pre2)[j]);
            assert(pre1.push(r)[j] == pre1[j]);
            assert(pre2.push(r)[j] == pre2[j]);
        }
    }
    lemma_content_by_names(seq![], seq![], Err(seq![]), pre1, pre2);
    assert forall|q: int| 0 <= q < n implies added_content(
        doc_type_of(spec_docs(s)[q]),
        spec_docs(s)[q].content@,
        parsed_at(p, q),
        pre1.push(r),
    ) == added_content(
        doc_type_of(spec_docs(s)[q]),
        spec_docs(s)[q].content@,
        parsed_at(p, q),
        pre2.push(r),
    ) by {
        lemma_content_by_names(
            doc_type_of(spec_docs(s)[q]),
            spec_docs(s)[q].content@,
            parsed_at(p, q),
            pre1.push(r),
            pre2.push(r),
        );
    }
}

/// Document `d` of spec `s`, the first refused, is refused with message `m`.
pub open spec fn doc_refused(s: BatchResourceSpec, p: Seq<Result<JsonValue, String>>, d: int, m: Seq<char>) -> bool {
    &&& 0 <= d < spec_docs(s).len()
    &&& forall|q: int| 0 <= q < d ==> #[trigger] added_content(
        doc_type_of(spec_docs(s)[q]),
        spec_docs(s)[q].content@,
        parsed_at(p, q),
        seq![],
    ) is Ok
    &&& added_content(doc_type_of(spec_docs(s)[d]), spec_docs(s)[d].content@, parsed_at(p, d), seq![])
        == Err::<Option<Json>, Seq<char>>(m)
}

/// `e` is the error of a document of spec `s` that is refused.
pub open spec fn doc_error(s: BatchResourceSpec, p: Seq<Result<JsonValue, String>>, e: LkError) -> bool {
    match e {
        LkError::InvalidInput(x) => exists|d: int| #[trigger] doc_refused(s, p, d, x@),
        _ => false,
    }
}

/// `c` reports the resource made for `s` with id `id`, and its documents.
pub open spec fn reports(c: BatchCreated, s: BatchResourceSpec, id: Seq<char>) -> bool {
    &&& c.id@ == id
    &&& c.name@ == s.name@
    &&& c.documents.len() == spec_docs(s).len()
    &&& forall|d: int|
        0 <= d < c.documents.len() ==> (#[trigger] c.documents@[d]).name@ == spec_docs(s)[d].name@
            && c.documents@[d].doc_type@ == doc_type_of(spec_docs(s)[d])
}

proof fn lemma_added_ok_any_rs(
    dt: Seq<char>,
    content: Seq<char>,
    p: Result<Json, Seq<char>>,
    rs: Seq<Resource>,
)
    ensures
        added_content(dt, content, p, rs) is Ok <==> added_content(dt, content, p, seq![]) is Ok,
        added_content(dt, content, p, rs) is Err ==> added_content(dt, content, p, rs)
            == added_content(dt, content, p, seq![]),
{
}

fn clone_parsed(p: &Result<JsonValue, String>) -> (r: Result<JsonValue, String>)
    ensures
        parsed_view(r) == parsed_view(*p),
{
    match p {
        Ok(v) => Ok(v.deep_clone()),
        Err(e) => Err(e.clone()),
    }
}

fn clone_props(ps: &Vec<Property>) -> (r: Vec<Property>)
    ensures
        props_model(r@) == props_model(ps@),
{
    let mut out: Vec<Property> = Vec::new();
    let mut i: usize = 0;
    while i < ps.len()
        invariant
            i <= ps.len(),
            props_model(out@) == props_model(ps@.take(i as int)),
        decreases ps.len() - i,
    {
        let p = &ps[i];
        let q = Property {
            id: p.id.clone(),
            pos: p.pos.clone(),
            prop_type: p.prop_type.clone(),
            title: p.title.clone(),
            is_hidden: p.is_hidden,
            is_title_hidden: p.is_title_hidden,
            data: clone_opt_json(&p.data),
        };
        assert(prop_model(q) == prop_model(ps@[i as int]));
        let ghost before = out@;
        out.push(q);
        assert(props_model(out@) =~= props_model(before).push(prop_model(q)));
        assert(props_model(ps@.take(i + 1)) =~= props_model(ps@.take(i as int)).push(
            prop_model(ps@[i as int]),
        ));
        i = i + 1;
    }
    assert(ps@.take(ps.len() as int) =~= ps@);
    out
}

fn opt_as_str(o: &Option<String>) -> (r: Option<&str>)
    ensures
        opt_view(r) == opt_str(*o),
{
    match o {
        Some(s) => Some(s.as_str()),
        None => None,
    }
}

impl WorldBuilder {
    /// Makes the resource of one spec, under `parent`, and adds its documents;
    /// `parsed[d]` is the JSON parse of the content of document `d`.
    fn batch_one(
        &mut self,
        spec: &BatchResourceSpec,
        parent: Option<String>,
        cache: &Vec<TemplateData>,
        parsed: &Vec<Result<JsonValue, String>>,
    ) -> (r: Result<BatchCreated, LkError>)
        ensures
            final(self).name == old(self).name,
            root_keeps(final(self).root, old(self).root),
            !crate::lk::builder::parent_missing(old(self).root.resources@, opt_str(parent))
                && docs_ok(*spec, parsed@) ==> r is Ok,
            r matches Err(e) ==> (crate::lk::builder::parent_missing(
                old(self).root.resources@,
                opt_str(parent),
            ) && (e matches LkError::DraftResourceNotFound(x) && Some(x@) == opt_str(parent)))
                || doc_error(*spec, parsed@, e),
            r is Err ==> {
                let rs = old(self).root.resources@;
                let rs2 = final(self).root.resources@;
                &&& rs.len() <= rs2.len() <= rs.len() + 1
                &&& forall|k: int| 0 <= k < rs.len() ==> same_but_documents(rs[k], #[trigger] rs2[k])
            },
            r is Ok ==> docs_ok(*spec, parsed@) && !crate::lk::builder::parent_missing(
                old(self).root.resources@,
                opt_str(parent),
            ),
            r matches Ok(c) ==> {
                let rs = old(self).root.resources@;
                let rs2 = final(self).root.resources@;
                &&& rs2.len() == rs.len() + 1
                &&& main_of(rs2[rs.len() as int], *spec, rs)
                &&& !has_res(rs, rs2[rs.len() as int].id@) ==> docs_content(
                    rs2[rs.len() as int],
                    *spec,
                    parsed@,
                    rs,
                    spec_docs(*spec).len() as int,
                )
                &&& forall|k: int| 0 <= k < rs.len() ==> same_but_documents(rs[k], #[trigger] rs2[k])
                &&& batch_resource(rs2[rs.len() as int], *spec, cache@, opt_str(parent))
                &&& reports(c, *spec, rs2[rs.len() as int].id@)
                &&& forall|k: int|
                    0 <= k < rs.len() && rs[k].id@ != rs2[rs.len() as int].id@ ==> #[trigger] rs2[k]
                        == rs[k]
                &&& !has_res(rs, rs2[rs.len() as int].id@) ==> holds_docs(
                    rs2[rs.len() as int],
                    spec_docs(*spec),
                    spec_docs(*spec).len() as int,
                )
            },
    {
        let ghost rs0 = self.root.resources@;
        let given = match &spec.tags {
            Some(t) => clone_strings(t),
            None => Vec::new(),
        };
        assert(str_views(given@) == given_tags(*spec));
        let mut k: usize = cache.len();
        if let Some(t) = &spec.template {
            let key = to_lowercase(t.as_str());
            let mut q: usize = 0;
            while q < cache.len() && !str_eq(cache[q].key.as_str(), key.as_str())
                invariant
                    q <= cache.len(),
                    key_index(data_keys(cache@), key@, 0) == key_index(data_keys(cache@), key@, q as int),
                decreases cache.len() - q,
            {
                q = q + 1;
            }
            proof {
                crate::json::lemma_key_index(data_keys(cache@), key@, q as int);
                if q < cache.len() {
                    assert(data_keys(cache@)[q as int] == key@);
                }
            }
            k = q;
        }
        assert(spec_template(*spec, cache@) == if k < cache.len() { Some(cache@[k as int]) } else { None::<TemplateData> });
        let (tags, props, ic, ig, ish) = if k < cache.len() {
            let e = &cache[k];
            (
                merge_tags(given, &e.tags),
                clone_props(&e.properties),
                clone_opt_string(&e.icon.icon_color),
                clone_opt_string(&e.icon.icon_glyph),
                clone_opt_string(&e.icon.icon_shape),
            )
        } else {
            (given, Vec::new(), None, None, None)
        };
        assert(str_views(tags@) == batch_tags(*spec, cache@));
        assert(k < cache.len() ==> props_model(props@) == props_model(cache@[k as int].properties@));
        assert(k >= cache.len() ==> props@.len() == 0 && ic is None && ig is None && ish is None);
        assert(k < cache.len() ==> opt_str(ic) == opt_str(cache@[k as int].icon.icon_color));
        let aliases = match &spec.aliases {
            Some(a) => clone_strings(a),
            None => Vec::new(),
        };
        let hidden = match spec.is_hidden {
            Some(h) => h,
            None => true,
        };
        let pid = opt_as_str(&parent);
        let content = opt_as_str(&spec.content);
        let summary = match self.create_resource(
            spec.name.as_str(),
            pid,
            Some(tags),
            content,
            hidden,
            aliases,
            props,
            ic,
            ig,
            ish,
        ) {
            Ok(s) => s,
            Err(e) => {
                return Err(e);
            },
        };
        let ghost rs1 = self.root.resources@;
        let ghost n = rs0.len();
        assert(rs1.take(n as int) == rs0);
        assert forall|j: int| 0 <= j < n implies same_but_documents(rs0[j], #[trigger] rs1[j]) by {
            assert(rs1[j] == rs1.take(n as int)[j]);
        }
        proof {
            let r = rs1[n as int];
            assert(r.name@ == spec.name@);
            assert(opt_str(r.parent_id) == opt_str(parent));
            assert(str_views(r.tags@) == batch_tags(*spec, cache@));
            assert(str_views(r.aliases@) == match spec.aliases {
                Some(a) => str_views(a@),
                None => seq![],
            });
            assert(r.is_hidden == hidden);
        }
        let rid = summary.id.clone();
        proof {
            assert(opt_view(content) == opt_str(spec.content));
            assert(main_of(rs1[n as int], *spec, rs0));
            assert(rs1[n as int].documents@.len() == 1);
            assert(rs1[n as int].documents@[0].name@ == "Main"@);
            assert forall|j: int| 0 <= j < n && rs0[j].id@ != rid@ implies #[trigger] rs1[j] == rs0[j] by {
                assert(rs1[j] == rs1.take(n as int)[j]);
            }
        }
        let mut docs: Vec<DraftDocumentSummary> = Vec::new();
        let empty: Vec<BatchDocumentSpec> = Vec::new();
        let dspecs = match &spec.documents {
            Some(d) => d,
            None => &empty,
        };
        assert(dspecs@ == spec_docs(*spec));
        let mut d: usize = 0;
        while d < dspecs.len()
            invariant
                d <= dspecs.len(),
                dspecs@ == spec_docs(*spec),
                self.name == old(self).name,
                root_keeps(self.root, old(self).root),
                self.root.resources@.len() == n + 1,
                forall|j: int| 0 <= j < n ==> same_but_documents(rs0[j], #[trigger] self.root.resources@[j]),
                same_but_documents(rs1[n as int], self.root.resources@[n as int]),
                rid@ == rs1[n as int].id@,
                n == rs0.len(),
                batch_resource(rs1[n as int], *spec, cache@, opt_str(parent)),
                forall|j: int|
                    0 <= j < n && rs0[j].id@ != rid@ ==> #[trigger] self.root.resources@[j] == rs0[j],
                !has_res(rs0, rid@) ==> holds_docs(self.root.resources@[n as int], dspecs@, d as int),
                self.root.resources@[n as int].documents@.len() >= 1,
                self.root.resources@[n as int].documents@[0] == rs1[n as int].documents@[0],
                main_of(rs1[n as int], *spec, rs0),
                named(self.root.resources@) == named(rs1),
                rs0 == old(self).root.resources@,
                !has_res(rs0, rid@) ==> docs_content(
                    self.root.resources@[n as int],
                    *spec,
                    parsed@,
                    rs0,
                    d as int,
                ),
                forall|q: int| 0 <= q < d ==> (#[trigger] added_content(
                    doc_type_of(dspecs@[q]),
                    dspecs@[q].content@,
                    parsed_at(parsed@, q),
                    seq![],
                )) is Ok,
                docs_ok(*spec, parsed@) ==> forall|q: int| d <= q < dspecs.len() ==> (#[trigger] added_content(
                    doc_type_of(dspecs@[q]),
                    dspecs@[q].content@,
                    parsed_at(parsed@, q),
                    seq![],
                )) is Ok,
                docs.len() == d,
                forall|q: int|
                    0 <= q < d ==> (#[trigger] docs@[q]).name@ == dspecs@[q].name@ && docs@[q].doc_type@
                        == doc_type_of(dspecs@[q]),
            decreases dspecs.len() - d,
        {
            let ds = &dspecs[d];
            let p = if d < parsed.len() {
                clone_parsed(&parsed[d])
            } else {
                Err(String::new())
            };
            assert(parsed_view(p) == parsed_at(parsed@, d as int));
            let ghost rsb = self.root.resources@;
            proof {
                assert(rsb[n as int].id@ == rid@);
                assert(has_res(rsb, rid@));
                lemma_added_ok_any_rs(doc_type_of(*ds), ds.content@, parsed_view(p), rsb);
            }
            let dt = opt_as_str(&ds.doc_type);
            let hidden_doc = match ds.is_hidden {
                Some(h) => h,
                None => false,
            };
            let s = match self.add_document(
                rid.as_str(),
                ds.name.as_str(),
                ds.content.as_str(),
                dt,
                hidden_doc,
                p,
            ) {
                Ok(s) => s,
                Err(e) => {
                    proof {
                        let m = e->InvalidInput_0@;
                        assert(doc_refused(*spec, parsed@, d as int, m));
                    }
                    return Err(e);
                },
            };
            proof {
                let rsa = self.root.resources@;
                let kk = crate::lk::builder::res_index(rsb, rid@);
                assert forall|j: int| 0 <= j < n implies same_but_documents(rs0[j], #[trigger] rsa[j]) by {
                    if j != kk {
                        assert(rsa[j] == rsb[j]);
                    } else {
                        assert(same_but_documents(rsb[j], rsa[j]));
                    }
                }
                if n != kk {
                    assert(rsa[n as int] == rsb[n as int]);
                } else {
                    let dsb0 = rsb[n as int].documents@;
                    assert(rsa[n as int].documents@.take(dsb0.len() as int) == dsb0);
                    assert(rsa[n as int].documents@[0] == rsa[n as int].documents@.take(dsb0.len() as int)[0]);
                }
                assert(named(rsa) =~= named(rsb)) by {
                    assert forall|j: int| 0 <= j < rsa.len() implies named(rsa)[j] == named(rsb)[j] by {
                        if j != kk {
                            assert(rsa[j] == rsb[j]);
                        } else {
                            assert(same_but_documents(rsb[j], rsa[j]));
                        }
                    }
                }
                crate::json::lemma_key_index(crate::lk::builder::res_ids(rsb), rid@, 0);
                let m = choose|m: int| 0 <= m < rsb.len() && (#[trigger] rsb[m]).id@ == rid@;
                assert(crate::lk::builder::res_ids(rsb)[m] == rid@);
                assert(crate::lk::builder::res_ids(rsb)[kk] == rid@);
                assert forall|j: int| 0 <= j < n && rs0[j].id@ != rid@ implies #[trigger] rsa[j] == rs0[j] by {
                    assert(rsb[j] == rs0[j]);
                    assert(crate::lk::builder::res_ids(rsb)[j] != rid@);
                }
                if !has_res(rs0, rid@) {
                    assert(crate::lk::builder::res_ids(rsb)[n as int] == rid@);
                    assert forall|j: int| 0 <= j < n implies crate::lk::builder::res_ids(rsb)[j] != rid@ by {
                        assert(same_but_documents(rs0[j], rsb[j]));
                        if rs0[j].id@ == rid@ {
                            assert(exists|i: int| 0 <= i < rs0.len() && (#[trigger] rs0[i]).id@ == rid@) by {
                                assert(0 <= j < rs0.len() && rs0[j].id@ == rid@);
                            }
                        }
                    }
                    assert(kk == n);
                    let dsb = rsb[n as int].documents@;
                    let dsa = rsa[n as int].documents@;
                    assert(dsa.take(dsb.len() as int) == dsb);
                    assert forall|q: int| 0 <= q < d + 1 implies (#[trigger] dsa[q + 1]).name@ == dspecs@[q].name@
                        && dsa[q + 1].doc_type@ == doc_type_of(dspecs@[q])
                        && dsa[q + 1].is_hidden == doc_hidden_of(dspecs@[q])
                        && dsa[q + 1].created_at@.len() > 0 by {
                        if q < d {
                            assert(dsa[q + 1] == dsb[q + 1]);
                        }
                    }
                    assert(dsa[0] == dsb[0]);
                    let ra = rsa[n as int];
                    let rb = rsb[n as int];
                    assert(same_but_documents(rb, ra));
                    assert(named(rsb) =~= named(rs0.push(ra))) by {
                        assert forall|j: int| 0 <= j < rsb.len() implies named(rsb)[j] == named(rs0.push(ra))[j] by {
                            if j < n {
                                assert(same_but_documents(rs0[j], rsb[j]));
                            }
                        }
                    }
                    assert(named(rs0.push(rb)) =~= named(rs0.push(ra)));
                    lemma_content_by_names(
                        doc_type_of(dspecs@[d as int]),
                        dspecs@[d as int].content@,
                        parsed_at(parsed@, d as int),
                        rsb,
                        rs0.push(ra),
                    );
                    assert forall|q: int| 0 <= q < d + 1 implies Ok::<Option<Json>, Seq<char>>(
                        crate::json::opt_json((#[trigger] ra.documents@[q + 1]).content),
                    ) == added_content(
                        doc_type_of(spec_docs(*spec)[q]),
                        spec_docs(*spec)[q].content@,
                        parsed_at(parsed@, q),
                        rs0.push(ra),
                    ) by {
                        if q < d {
                            assert(dsa[q + 1] == dsb[q + 1]);
                            assert(Ok::<Option<Json>, Seq<char>>(crate::json::opt_json(dsb[q + 1].content))
                                == added_content(
                                doc_type_of(spec_docs(*spec)[q]),
                                spec_docs(*spec)[q].content@,
                                parsed_at(parsed@, q),
                                rs0.push(rb),
                            ));
                            lemma_content_by_names(
                                doc_type_of(spec_docs(*spec)[q]),
                                spec_docs(*spec)[q].content@,
                                parsed_at(parsed@, q),
                                rs0.push(rb),
                                rs0.push(ra),
                            );
                        }
                    }
                }
            }
            docs.push(s);
            d = d + 1;
        }
        proof {
            let rs2 = self.root.resources@;
            assert(batch_resource(rs2[n as int], *spec, cache@, opt_str(parent)));
            assert(main_of(rs2[n as int], *spec, rs0));
        }
        Ok(BatchCreated { id: summary.id, name: summary.name, documents: docs })
    }
}

/// The last spec before `i` whose name is `p`, without case, or -1.
pub open spec fn name_match(specs: Seq<BatchResourceSpec>, i: int, p: Seq<char>) -> int
    decreases i,
{
    if i <= 0 {
        -1
    } else if lowercase(specs[i - 1].name@) == lowercase(p) {
        i - 1
    } else {
        name_match(specs, i - 1, p)
    }
}

proof fn lemma_name_match_bound(specs: Seq<BatchResourceSpec>, i: int, p: Seq<char>)
    ensures
        -1 <= name_match(specs, i, p) < i || (i <= 0 && name_match(specs, i, p) == -1),
        name_match(specs, i, p) >= 0 ==> lowercase(specs[name_match(specs, i, p)].name@) == lowercase(p),
    decreases i,
{
    if i > 0 {
        lemma_name_match_bound(specs, i - 1, p);
    }
}

/// The parent of spec `i`: the resource made for the last earlier spec of
/// that name (without case), else the id given; `ids[j]` is the id of the
/// resource made for spec `j`.
pub open spec fn batch_parent(specs: Seq<BatchResourceSpec>, i: int, ids: Seq<Seq<char>>) -> Option<Seq<char>> {
    match specs[i].parent {
        None => None,
        Some(p) => {
            let j = name_match(specs, i, p@);
            if j >= 0 {
                Some(ids[j])
            } else {
                Some(p@)
            }
        },
    }
}

pub open spec fn parsed_for(parsed: Seq<Vec<Result<JsonValue, String>>>, i: int) -> Seq<Result<JsonValue, String>> {
    if 0 <= i < parsed.len() {
        parsed[i]@
    } else {
        seq![]
    }
}

/// Each parent names an earlier spec of the batch or a resource of the draft,
/// and each document would be accepted.
pub open spec fn batch_inputs_ok(
    rs: Seq<Resource>,
    specs: Seq<BatchResourceSpec>,
    parsed: Seq<Vec<Result<JsonValue, String>>>,
) -> bool {
    &&& forall|i: int|
        0 <= i < specs.len() ==> (#[trigger] specs[i].parent matches Some(p) ==> name_match(specs, i, p@)
            >= 0 || has_res(rs, p@))
    &&& forall|i: int| 0 <= i < specs.len() ==> docs_ok(#[trigger] specs[i], parsed_for(parsed, i))
}

/// `e` is the error of spec `i`: its parent, which names no earlier spec of
/// the batch, is not in the draft; or one of its documents is refused.
pub open spec fn batch_error(
    specs: Seq<BatchResourceSpec>,
    parsed: Seq<Vec<Result<JsonValue, String>>>,
    i: int,
    e: LkError,
) -> bool {
    ||| (specs[i].parent matches Some(p) && name_match(specs, i, p@) < 0 && (
    e matches LkError::DraftResourceNotFound(x) && x@ == p@))
    ||| doc_error(specs[i], parsed_for(parsed, i), e)
}

/// Spec `j` of the batch went through: a parent that names no earlier spec
/// is in the draft `rs`, and each of its documents is accepted.
pub open spec fn spec_passed(
    rs: Seq<Resource>,
    specs: Seq<BatchResourceSpec>,
    parsed: Seq<Vec<Result<JsonValue, String>>>,
    j: int,
) -> bool {
    &&& (specs[j].parent matches Some(p) ==> (name_match(specs, j, p@) < 0 ==> has_res(rs, p@)))
    &&& docs_ok(specs[j], parsed_for(parsed, j))
}

proof fn lemma_passed_kept(
    a: Seq<Resource>,
    b: Seq<Resource>,
    specs: Seq<BatchResourceSpec>,
    parsed: Seq<Vec<Result<JsonValue, String>>>,
    j: int,
)
    requires
        a.len() <= b.len(),
        forall|k: int| 0 <= k < a.len() ==> same_but_documents(a[k], #[trigger] b[k]),
        spec_passed(a, specs, parsed, j),
    ensures
        spec_passed(b, specs, parsed, j),
{
    if let Some(p) = specs[j].parent {
        if name_match(specs, j, p@) < 0 {
            let k = choose|k: int| 0 <= k < a.len() && (#[trigger] a[k]).id@ == p@;
            assert(same_but_documents(a[k], b[k]));
            assert(0 <= k < b.len() && b[k].id@ == p@);
        }
    }
}

/// Id `j` of `ids` is new: no resource of `rs` has it, nor any other of `ids`.
pub open spec fn unique_among(rs: Seq<Resource>, ids: Seq<Seq<char>>, j: int) -> bool {
    &&& !has_res(rs, ids[j])
    &&& forall|q: int| 0 <= q < ids.len() && q != j ==> #[trigger] ids[q] != ids[j]
}

/// The draft `rs2` keeps the resources of `rs` (their documents aside) and,
/// after them, those made for the first `m` specs.
pub open spec fn batch_kept(
    rs: Seq<Resource>,
    rs2: Seq<Resource>,
    specs: Seq<BatchResourceSpec>,
    cache: Seq<TemplateData>,
    m: int,
) -> bool {
    let n = rs.len();
    let ids = Seq::new(m as nat, |j: int| rs2[n + j].id@);
    &&& 0 <= m <= specs.len()
    &&& n + m <= rs2.len()
    &&& forall|k: int| 0 <= k < n ==> same_but_documents(rs[k], #[trigger] rs2[k])
    &&& forall|j: int|
        0 <= j < m ==> batch_resource(#[trigger] rs2[n + j], specs[j], cache, batch_parent(specs, j, ids))
}

/// The draft `rs2` is `rs` with a resource made for each spec, in order, and
/// `created` reports them; a resource whose id is new holds the documents
/// its spec asks for, with their content, mentions resolved against the
/// resources before it.
pub open spec fn batch_done(
    rs: Seq<Resource>,
    rs2: Seq<Resource>,
    specs: Seq<BatchResourceSpec>,
    cache: Seq<TemplateData>,
    parsed: Seq<Vec<Result<JsonValue, String>>>,
    created: Seq<BatchCreated>,
) -> bool {
    let n = rs.len();
    let ids = Seq::new(specs.len(), |j: int| rs2[n + j].id@);
    &&& created.len() == specs.len()
    &&& rs2.len() == n + specs.len()
    &&& forall|k: int| 0 <= k < n ==> same_but_documents(rs[k], #[trigger] rs2[k])
    &&& forall|i: int|
        0 <= i < specs.len() ==> batch_resource(
            #[trigger] rs2[n + i],
            specs[i],
            cache,
            batch_parent(specs, i, ids),
        )
    &&& forall|i: int| 0 <= i < specs.len() ==> reports(#[trigger] created[i], specs[i], ids[i])
    &&& forall|i: int|
        0 <= i < specs.len() && unique_among(rs, ids, i) ==> holds_docs(
            #[trigger] rs2[n + i],
            spec_docs(specs[i]),
            spec_docs(specs[i]).len() as int,
        )
    &&& forall|i: int|
        0 <= i < specs.len() && unique_among(rs, ids, i) ==> main_of(
            #[trigger] rs2[n + i],
            specs[i],
            rs2.take(n + i),
        ) && docs_content(
            rs2[n + i],
            specs[i],
            parsed_for(parsed, i),
            rs2.take(n + i),
            spec_docs(specs[i]).len() as int,
        )
}

impl WorldBuilder {
    /// Makes a resource, with its documents, for each spec in order. A parent
    /// may name a resource made earlier in the batch. Templates come from
    /// `cache`; `parsed[i][d]` is the JSON parse of the content of document
    /// `d` of spec `i`. The first failure stops the batch, keeping what was
    /// made before it.
    pub fn batch_create(
        &mut self,
        specs: &Vec<BatchResourceSpec>,
        cache: &Vec<TemplateData>,
        parsed: &Vec<Vec<Result<JsonValue, String>>>,
    ) -> (r: Result<Vec<BatchCreated>, LkError>)
        ensures
            final(self).name == old(self).name,
            root_keeps(final(self).root, old(self).root),
            batch_inputs_ok(old(self).root.resources@, specs@, parsed@) ==> r is Ok,
            r matches Err(e) ==> exists|i: int|
                0 <= i < specs.len() && #[trigger] batch_error(specs@, parsed@, i, e) && batch_kept(
                    old(self).root.resources@,
                    final(self).root.resources@,
                    specs@,
                    cache@,
                    i,
                ) && final(self).root.resources@.len() <= old(self).root.resources@.len() + i + 1
                && forall|j: int| 0 <= j < i ==> spec_passed(final(self).root.resources@, specs@, parsed@, j),
            r matches Ok(c) ==> batch_done(
                old(self).root.resources@,
                final(self).root.resources@,
                specs@,
                cache@,
                parsed@,
                c@,
            ),
    {
        let ghost rs0 = self.root.resources@;
        let ghost n = rs0.len();
        let mut lower: Vec<String> = Vec::new();
        let mut ids: Vec<String> = Vec::new();
        let mut created: Vec<BatchCreated> = Vec::new();
        let empty: Vec<Result<JsonValue, String>> = Vec::new();
        let mut i: usize = 0;
        while i < specs.len()
            invariant
                i <= specs.len(),
                rs0 == old(self).root.resources@,
                n == rs0.len(),
                empty@.len() == 0,
                self.name == old(self).name,
                root_keeps(self.root, old(self).root),
                self.root.resources@.len() == n + i,
                forall|k: int| 0 <= k < n ==> same_but_documents(rs0[k], #[trigger] self.root.resources@[k]),
                lower.len() == i,
                ids.len() == i,
                created.len() == i,
                forall|j: int| 0 <= j < i ==> (#[trigger] lower@[j])@ == lowercase(specs@[j].name@),
                forall|j: int| 0 <= j < i ==> #[trigger] spec_passed(self.root.resources@, specs@, parsed@, j),
                forall|j: int| 0 <= j < i ==> (#[trigger] ids@[j])@ == self.root.resources@[n + j].id@,
                forall|j: int|
                    0 <= j < i ==> batch_resource(
                        #[trigger] self.root.resources@[n + j],
                        specs@[j],
                        cache@,
                        batch_parent(specs@, j, str_views(ids@)),
                    ),
                forall|j: int| 0 <= j < i ==> reports(#[trigger] created@[j], specs@[j], ids@[j]@),
                forall|j: int|
                    0 <= j < i && unique_among(rs0, str_views(ids@), j) ==> main_of(
                        #[trigger] self.root.resources@[n + j],
                        specs@[j],
                        self.root.resources@.take(n + j),
                    ) && docs_content(
                        self.root.resources@[n + j],
                        specs@[j],
                        parsed_for(parsed@, j),
                        self.root.resources@.take(n + j),
                        spec_docs(specs@[j]).len() as int,
                    ),
                forall|j: int|
                    0 <= j < i && unique_among(rs0, str_views(ids@), j) ==> holds_docs(
                        #[trigger] self.root.resources@[n + j],
                        spec_docs(specs@[j]),
                        spec_docs(specs@[j]).len() as int,
                    ),
            decreases specs.len() - i,
        {
            let ghost rsc = self.root.resources@;
            let spec = &specs[i];
            let parent: Option<String> = match &spec.parent {
                Some(p) => {
                    let lp = to_lowercase(p.as_str());
                    let mut j: usize = i;
                    while j > 0 && !str_eq(lower[j - 1].as_str(), lp.as_str())
                        invariant
                            j <= i,
                            i == lower.len(),
                            lp@ == lowercase(p@),
                            forall|q: int| 0 <= q < i ==> (#[trigger] lower@[q])@ == lowercase(specs@[q].name@),
                            name_match(specs@, i as int, p@) == name_match(specs@, j as int, p@),
                        decreases j,
                    {
                        j = j - 1;
                    }
                    proof {
                        lemma_name_match_bound(specs@, j as int, p@);
                    }
                    if j > 0 {
                        Some(ids[j - 1].clone())
                    } else {
                        Some(p.clone())
                    }
                },
                None => None,
            };
            assert(opt_str(parent) == batch_parent(specs@, i as int, str_views(ids@)));
            proof {
                if batch_inputs_ok(rs0, specs@, parsed@) {
                    assert(docs_ok(specs@[i as int], parsed_for(parsed@, i as int)));
                    if specs@[i as int].parent is Some {
                        let p = specs@[i as int].parent->Some_0;
                        let jm = name_match(specs@, i as int, p@);
                        lemma_name_match_bound(specs@, i as int, p@);
                        if jm >= 0 {
                            assert(rsc[n + jm].id@ == ids@[jm]@);
                            assert(has_res(rsc, ids@[jm]@));
                        } else {
                            assert(has_res(rs0, p@));
                            let k = choose|k: int| 0 <= k < rs0.len() && (#[trigger] rs0[k]).id@ == p@;
                            assert(same_but_documents(rs0[k], rsc[k]));
                            assert(has_res(rsc, p@));
                        }
                    }
                }
            }
            let pe = if i < parsed.len() {
                &parsed[i]
            } else {
                assert(empty@ =~= parsed_for(parsed@, i as int));
                &empty
            };
            assert(pe@ == parsed_for(parsed@, i as int));
            let c = match self.batch_one(spec, parent, cache, pe) {
                Ok(c) => c,
                Err(e) => {
                    proof {
                        if !doc_error(*spec, pe@, e) {
                            let p = specs@[i as int].parent->Some_0;
                            let jm = name_match(specs@, i as int, p@);
                            lemma_name_match_bound(specs@, i as int, p@);
                            if jm >= 0 {
                                assert(rsc[n + jm].id@ == ids@[jm]@);
                                assert(has_res(rsc, ids@[jm]@));
                            }
                        }
                        assert(batch_error(specs@, parsed@, i as int, e));
                        let rse = self.root.resources@;
                        assert forall|k: int| 0 <= k < n implies same_but_documents(rs0[k], #[trigger] rse[k]) by {
                            assert(same_but_documents(rsc[k], rse[k]));
                        }
                        let idv = Seq::new(i as nat, |j: int| rse[n + j].id@);
                        assert forall|j: int| 0 <= j < i implies idv[j] == str_views(ids@)[j] by {
                            assert(same_but_documents(rsc[n + j], rse[n + j]));
                        }
                        assert(idv =~= str_views(ids@));
                        assert forall|j: int| 0 <= j < i implies batch_resource(
                            #[trigger] rse[n + j],
                            specs@[j],
                            cache@,
                            batch_parent(specs@, j, idv),
                        ) by {
                            assert(same_but_documents(rsc[n + j], rse[n + j]));
                            assert(batch_resource(rsc[n + j], specs@[j], cache@, batch_parent(specs@, j, str_views(ids@))));
                        }
                        assert(batch_kept(rs0, rse, specs@, cache@, i as int));
                        assert forall|j: int| 0 <= j < i implies spec_passed(rse, specs@, parsed@, j) by {
                            assert(spec_passed(rsc, specs@, parsed@, j));
                            lemma_passed_kept(rsc, rse, specs@, parsed@, j);
                        }
                    }
                    return Err(e);
                },
            };
            let ghost rsn = self.root.resources@;
            proof {
                assert forall|j: int| 0 <= j < i implies spec_passed(rsn, specs@, parsed@, j) by {
                    assert(spec_passed(rsc, specs@, parsed@, j));
                    lemma_passed_kept(rsc, rsn, specs@, parsed@, j);
                }
                assert(spec_passed(rsc, specs@, parsed@, i as int)) by {
                    if let Some(p) = specs@[i as int].parent {
                        if name_match(specs@, i as int, p@) < 0 {
                            assert(batch_parent(specs@, i as int, str_views(ids@)) == Some(p@));
                        }
                    }
                }
                lemma_passed_kept(rsc, rsn, specs@, parsed@, i as int);
            }
            let ghost ids0 = str_views(ids@);
            lower.push(to_lowercase(spec.name.as_str()));
            ids.push(c.id.clone());
            created.push(c);
            proof {
                let ids1 = str_views(ids@);
                assert(ids1.take(i as int) =~= ids0);
                assert forall|j: int| 0 <= j <= i implies batch_parent(specs@, j, ids1) == batch_parent(
                    specs@,
                    j,
                    ids0.push(rsn[n + i].id@),
                ) by {
                    assert(ids1 =~= ids0.push(rsn[n + i].id@));
                }
                assert forall|j: int| 0 <= j < i implies batch_parent(specs@, j, ids1) == batch_parent(
                    specs@,
                    j,
                    ids0,
                ) by {
                    if let Some(p) = specs@[j].parent {
                        lemma_name_match_bound(specs@, j, p@);
                    }
                }
                assert forall|j: int| 0 <= j < i + 1 implies batch_resource(
                    #[trigger] rsn[n + j],
                    specs@[j],
                    cache@,
                    batch_parent(specs@, j, ids1),
                ) by {
                    if j < i {
                        assert(same_but_documents(rsc[n + j], rsn[n + j]));
                    }
                }
                assert forall|k: int| 0 <= k < n implies same_but_documents(rs0[k], #[trigger] rsn[k]) by {
                    assert(same_but_documents(rsc[k], rsn[k]));
                }
                assert forall|j: int| 0 <= j < i + 1 implies (#[trigger] ids@[j])@ == rsn[n + j].id@ by {
                    if j < i {
                        assert(same_but_documents(rsc[n + j], rsn[n + j]));
                    }
                }
                let x = rsn[n + i].id@;
                assert(ids1 =~= ids0.push(x));
                assert forall|j: int| 0 <= j < i + 1 && unique_among(rs0, ids1, j) implies holds_docs(
                    #[trigger] rsn[n + j],
                    spec_docs(specs@[j]),
                    spec_docs(specs@[j]).len() as int,
                ) && main_of(rsn[n + j], specs@[j], rsn.take(n + j)) && docs_content(
                    rsn[n + j],
                    specs@[j],
                    parsed_for(parsed@, j),
                    rsn.take(n + j),
                    spec_docs(specs@[j]).len() as int,
                ) by {
                    lemma_named_prefix(rsc, rsn, n + j);
                    if j < i {
                        assert(ids1[j] == ids0[j]);
                        assert(ids1[i as int] == x);
                        assert(unique_among(rs0, ids0, j)) by {
                            assert forall|q: int| 0 <= q < ids0.len() && q != j implies #[trigger] ids0[q] != ids0[j] by {
                                assert(ids1[q] == ids0[q]);
                            }
                        }
                        assert(rsc[n + j].id@ == ids0[j]);
                        assert(rsc[n + j].id@ != x);
                        assert(rsn[n + j] == rsc[n + j]);
                        assert(main_of(rsc[n + j], specs@[j], rsc.take(n + j)));
                        lemma_contents_pre(
                            rsn[n + j],
                            specs@[j],
                            parsed_for(parsed@, j),
                            rsc.take(n + j),
                            rsn.take(n + j),
                            spec_docs(specs@[j]).len() as int,
                        );
                    } else {
                        assert(!has_res(rsc, x)) by {
                            if has_res(rsc, x) {
                                let m = choose|m: int| 0 <= m < rsc.len() && (#[trigger] rsc[m]).id@ == x;
                                if m < n {
                                    assert(same_but_documents(rs0[m], rsc[m]));
                                    assert(exists|t: int| 0 <= t < rs0.len() && (#[trigger] rs0[t]).id@ == x) by {
                                        assert(0 <= m < rs0.len() && rs0[m].id@ == x);
                                    }
                                } else {
                                    assert(ids0[m - n] == rsc[m].id@);
                                    assert(ids1[m - n] == ids0[m - n]);
                                    assert(ids1[m - n] != ids1[j]);
                                }
                            }
                        }
                        assert(rsc.take(n + j) =~= rsc);
                        lemma_contents_pre(
                            rsn[n + j],
                            specs@[j],
                            parsed_for(parsed@, j),
                            rsc,
                            rsn.take(n + j),
                            spec_docs(specs@[j]).len() as int,
                        );
                    }
                }
            }
            i = i + 1;
        }
        proof {
            let rs2 = self.root.resources@;
            let idv = Seq::new(specs.len() as nat, |j: int| rs2[n + j].id@);
            assert(idv =~= str_views(ids@));
        }
        Ok(created)
    }
}

// ---------------------------------------------------------------------------
// One resource from the tool's parameters
// ---------------------------------------------------------------------------

/// The message when no draft world exists.
pub open spec fn no_draft_msg() -> Seq<char> {
    "No draft world \u{2014} call create_world first"@
}

/// The message when a batch finds no draft and is given no world name.
pub open spec fn no_draft_for_batch_msg() -> Seq<char> {
    "No draft world \u{2014} provide world_name or call create_world first"@
}

/// Makes sure a draft exists for a batch: the draft there is stays; without
/// one, a new empty draft named `world_name` is made, and without a name
/// the batch cannot go on.
pub fn ensure_draft(builder: &mut Option<WorldBuilder>, world_name: &Option<String>) -> (r: Result<(), String>)
    ensures
        match *old(builder) {
            Some(b) => *final(builder) == Some(b) && r is Ok,
            None => match *world_name {
                Some(n) => r is Ok && (*final(builder) matches Some(b) && crate::lk::builder::empty_draft(
                    b,
                    n@,
                )),
                None => *final(builder) is None && (r matches Err(m) && m@ == no_draft_for_batch_msg()),
            },
        },
{
    if builder.is_some() {
        return Ok(());
    }
    match world_name {
        Some(n) => {
            *builder = Some(WorldBuilder::new(n.as_str()));
            Ok(())
        },
        None => Err(copy_str("No draft world \u{2014} provide world_name or call create_world first")),
    }
}

/// The template resource that a name finds.
pub open spec fn template_res(ws: Seq<(String, crate::lk::schema::LkRoot)>, world: Option<Seq<char>>, n: Seq<char>) -> Resource {
    let k = resolve_spec_idx(ws, world)->Some_0;
    let rs = ws[k].1.resources@;
    rs[template_positions(rs, rs.len() as int)[key_index(template_lower_names(rs), lowercase(n), 0)]]
}

/// `r` is the resource that `create_resource` makes from `params` in a draft
/// whose resources were `rs`, with the template `t` when one is named: its
/// one document is a `Main` page holding the given markdown.
pub open spec fn made_from_params(
    r: Resource,
    rs: Seq<Resource>,
    params: CreateResourceParams,
    t: Option<Resource>,
) -> bool {
    let given = match params.tags {
        Some(v) => str_views(v@),
        None => seq![],
    };
    &&& r.name@ == params.name@
    &&& opt_str(r.parent_id) == opt_str(params.parent_id)
    &&& r.is_hidden == match params.is_hidden {
        Some(h) => h,
        None => true,
    }
    &&& str_views(r.aliases@) == match params.aliases {
        Some(a) => str_views(a@),
        None => seq![],
    }
    &&& r.documents@.len() == 1
    &&& r.documents@[0].name@ == "Main"@
    &&& r.documents@[0].doc_type@ == "page"@
    &&& crate::json::opt_json(r.documents@[0].content) == Some(main_content(opt_str(params.content), rs))
    &&& match t {
        Some(tr) => {
            &&& str_views(r.tags@) == merged_tags(given, str_views(tr.tags@))
            &&& r.properties.len() == tr.properties.len()
            &&& forall|i: int|
                0 <= i < tr.properties.len() ==> crate::lk::store::fresh_property(
                    tr.properties@[i],
                    #[trigger] r.properties@[i],
                )
            &&& r.icon_color == tr.icon_color && r.icon_glyph == tr.icon_glyph && r.icon_shape == tr.icon_shape
        },
        None => {
            &&& str_views(r.tags@) == given
            &&& r.properties.len() == 0
            &&& r.icon_color is None && r.icon_glyph is None && r.icon_shape is None
        },
    }
}

/// Creates a resource in the draft from the tool's parameters: the template
/// named (looked up first) gives its property blocks, icon and tags, merged
/// after the given tags; a resource is hidden unless told otherwise.
pub fn create_resource_from_params(
    store: &WorldStore,
    builder: &mut Option<WorldBuilder>,
    params: &CreateResourceParams,
) -> (r: Result<crate::lk::builder::DraftResourceSummary, String>)
    ensures
        ({
            let ws = store.worlds@;
            let world = opt_str(params.template_world);
            match params.template {
                Some(n) if !template_found(ws, world, n@) => *final(builder) == *old(builder) && (
                r matches Err(m) && exists|e: LkError|
                    template_result(ws, world, n@, Err(e)) && m@ == crate::lk::error_text(e)
            ),
                _ => match *old(builder) {
                    None => *final(builder) == *old(builder) && (r matches Err(m) && m@ == no_draft_msg()),
                    Some(b) => {
                        let rs = b.root.resources@;
                        let b2 = (*final(builder))->Some_0;
                        let rs2 = b2.root.resources@;
                        &&& *final(builder) is Some
                        &&& b2.name == b.name
                        &&& root_keeps(b2.root, b.root)
                        &&& if crate::lk::builder::parent_missing(rs, opt_str(params.parent_id)) {
                            b2 == b && (r matches Err(m) && m@ == crate::lk::error_text(
                                LkError::DraftResourceNotFound(params.parent_id->Some_0),
                            ))
                        } else {
                            &&& rs2.len() == rs.len() + 1
                            &&& rs2.take(rs.len() as int) == rs
                            &&& made_from_params(
                                rs2[rs.len() as int],
                                rs,
                                *params,
                                match params.template {
                                    Some(n) => Some(template_res(ws, world, n@)),
                                    None => None,
                                },
                            )
                            &&& r matches Ok(s) && crate::lk::builder::summarizes(s, rs2[rs.len() as int])
                        }
                    },
                },
            }
        }),
{
    let ghost ws = store.worlds@;
    let ghost world = opt_str(params.template_world);
    let template = match &params.template {
        Some(n) => match store.get_template_properties(&params.template_world, n.as_str()) {
            Ok(x) => {
                proof {
                    lemma_template_result_ok(ws, world, n@, Ok(x));
                }
                Some(x)
            },
            Err(e) => {
                proof {
                    lemma_template_result_ok(ws, world, n@, Err(e));
                }
                return Err(e.to_string());
            },
        },
        None => None,
    };
    let b = match builder {
        Some(b) => b,
        None => {
            return Err(copy_str("No draft world \u{2014} call create_world first"));
        },
    };
    let given = match &params.tags {
        Some(t) => clone_strings(t),
        None => Vec::new(),
    };
    assert(str_views(given@) == match params.tags {
        Some(v) => str_views(v@),
        None => Seq::<Seq<char>>::empty(),
    });
    let (tags, props, ic, ig, ish) = match template {
        Some((props, ttags, icon)) => (merge_tags(given, &ttags), props, icon.icon_color, icon.icon_glyph, icon.icon_shape),
        None => (given, Vec::new(), None, None, None),
    };
    let aliases = match &params.aliases {
        Some(a) => clone_strings(a),
        None => Vec::new(),
    };
    assert(str_views(aliases@) == match params.aliases {
        Some(a) => str_views(a@),
        None => Seq::<Seq<char>>::empty(),
    });
    let hidden = match params.is_hidden {
        Some(h) => h,
        None => true,
    };
    let pid = opt_as_str(&params.parent_id);
    let content = opt_as_str(&params.content);
    match b.create_resource(params.name.as_str(), pid, Some(tags), content, hidden, aliases, props, ic, ig, ish) {
        Ok(s) => Ok(s),
        Err(e) => Err(e.to_string()),
    }
}

} // verus!
