//! Queries over the loaded worlds.

use vstd::prelude::*;
use crate::json::{Json, JsonValue, get_str, get2_str, json_get, key_index, lemma_key_index, opt_str};
use crate::lk::builder::{has_res, res_index, name_index, lower_names, res_ids};
use crate::lk::io::{generate_id, is_record_id};
use crate::lk::schema::{BoardRecord, Calendar, Document, LkRoot, Property, Resource};
use crate::lk::LkError;
use crate::text::{find_from, chars_of, copy_str, ends_with, ends_with_chars, lowercase, str_eq, to_lowercase};

verus! {

/// A template: a resource tagged as a template, with its property blocks.
#[derive(Debug, Clone)]
pub struct TemplateSummary {
    pub name: String,
    pub tags: Vec<String>,
    pub properties: Vec<TemplatePropertySummary>,
}

#[derive(Debug, Clone)]
pub struct TemplatePropertySummary {
    pub prop_type: String,
    pub title: String,
}

/// Icon fields taken from a template resource.
#[derive(Debug, Clone)]
pub struct TemplateIcon {
    pub icon_color: Option<String>,
    pub icon_glyph: Option<String>,
    pub icon_shape: Option<String>,
}

#[derive(Debug, Clone)]
pub struct WorldSummary {
    pub name: String,
    pub resource_count: usize,
    pub calendar_count: usize,
    pub guide: Option<String>,
}

#[derive(Debug, Clone)]
pub struct ResourceSummary {
    pub id: String,
    pub name: String,
    pub tags: Vec<String>,
    pub parent_id: Option<String>,
    pub is_hidden: bool,
}

#[derive(Debug)]
pub struct ResourceTree {
    pub id: String,
    pub name: String,
    pub children: Vec<ResourceTree>,
}

#[derive(Debug, Clone)]
pub struct SearchResult {
    pub resource_id: String,
    pub resource_name: String,
    pub document_name: String,
    pub snippet: String,
    pub is_hidden: bool,
}


// ---------------------------------------------------------------------------
// The loaded worlds
// ---------------------------------------------------------------------------

/// The loaded worlds, each under its file name.
pub struct WorldStore {
    pub worlds: Vec<(String, LkRoot)>,
}

pub open spec fn world_names(ws: Seq<(String, LkRoot)>) -> Seq<Seq<char>> {
    Seq::new(ws.len(), |i: int| ws[i].0@)
}

impl WorldStore {
    /// No name is held twice.
    pub open spec fn wf(&self) -> bool {
        forall|i: int, j: int|
            0 <= i < j < self.worlds.len() ==> (#[trigger] self.worlds@[i]).0@ != (
            #[trigger] self.worlds@[j]).0@
    }

    /// The worlds by name.
    pub open spec fn world_map(&self) -> Map<Seq<char>, LkRoot> {
        Map::new(
            |k: Seq<char>| world_names(self.worlds@).contains(k),
            |k: Seq<char>| self.worlds@[key_index(world_names(self.worlds@), k, 0)].1,
        )
    }

    /// A store holding no world.
    pub fn new() -> (s: Self)
        ensures
            s.wf(),
            s.world_map() == Map::<Seq<char>, LkRoot>::empty(),
    {
        let s = WorldStore { worlds: Vec::new() };
        assert(s.world_map() =~= Map::<Seq<char>, LkRoot>::empty());
        s
    }

    fn find_world(&self, name: &str) -> (r: usize)
        ensures
            r == key_index(world_names(self.worlds@), name@, 0),
            r <= self.worlds.len(),
            r < self.worlds.len() <==> world_names(self.worlds@).contains(name@),
            r < self.worlds.len() ==> self.worlds@[r as int].0@ == name@,
    {
        let ghost ks = world_names(self.worlds@);
        proof { lemma_key_index(ks, name@, 0); }
        let mut i: usize = 0;
        while i < self.worlds.len()
            invariant
                i <= self.worlds.len(),
                ks == world_names(self.worlds@),
                key_index(ks, name@, 0) == key_index(ks, name@, i as int),
            decreases self.worlds.len() - i,
        {
            if str_eq(self.worlds[i].0.as_str(), name) {
                return i;
            }
            i = i + 1;
        }
        proof {
            if ks.contains(name@) {
                let j = choose|j: int| 0 <= j < ks.len() && ks[j] == name@;
                assert(ks[j] == name@);
            }
        }
        i
    }

    /// Loads a world under a name, in place of a world of that name.
    pub fn insert_world(&mut self, name: String, root: LkRoot)
        requires
            old(self).wf(),
        ensures
            final(self).wf(),
            final(self).world_map() == old(self).world_map().insert(name@, root),
    {
        let ghost nm = name@;
        let ghost ws0 = self.worlds@;
        let k = self.find_world(name.as_str());
        proof { lemma_key_index(world_names(ws0), nm, 0); }
        if k < self.worlds.len() {
            self.worlds.set(k, (name, root));
            let ghost ws1 = self.worlds@;
            assert(world_names(ws1) =~= world_names(ws0));
            assert forall|i: int, j: int| 0 <= i < j < ws1.len() implies (#[trigger] ws1[i]).0@ != (
                #[trigger] ws1[j]).0@ by {
                assert(world_names(ws1)[i] == world_names(ws0)[i]);
                assert(world_names(ws1)[j] == world_names(ws0)[j]);
                assert(ws0[i].0@ != ws0[j].0@);
            }
            assert(self.world_map() =~= old(self).world_map().insert(nm, root)) by {
                assert forall|x: Seq<char>| #[trigger] world_names(ws1).contains(x) implies
                    self.worlds@[key_index(world_names(ws1), x, 0)].1 == old(self).world_map().insert(nm, root)[x] by {
                    lemma_key_index(world_names(ws0), x, 0);
                    let i = key_index(world_names(ws0), x, 0);
                    let j = choose|j: int| 0 <= j < ws0.len() && world_names(ws0)[j] == x;
                    assert(i <= j);
                }
            }
        } else {
            self.worlds.push((name, root));
            let ghost ws1 = self.worlds@;
            assert(world_names(ws1) =~= world_names(ws0).push(nm));
            assert forall|i: int, j: int| 0 <= i < j < ws1.len() implies (#[trigger] ws1[i]).0@ != (
                #[trigger] ws1[j]).0@ by {
                if j == ws0.len() {
                    assert(world_names(ws0)[i] == ws0[i].0@);
                } else {
                    assert(ws0[i].0@ != ws0[j].0@);
                }
            }
            assert(self.world_map() =~= old(self).world_map().insert(nm, root)) by {
                assert forall|x: Seq<char>| #[trigger] world_names(ws1).contains(x) implies
                    self.worlds@[key_index(world_names(ws1), x, 0)].1 == old(self).world_map().insert(nm, root)[x] by {
                    lemma_key_index(world_names(ws1), x, 0);
                    lemma_key_index(world_names(ws0), x, 0);
                    if x == nm {
                        assert(world_names(ws1)[ws0.len() as int] == x);
                        assert(key_index(world_names(ws1), x, 0) == ws0.len()) by {
                            let i = key_index(world_names(ws1), x, 0);
                            if i < ws0.len() {
                                assert(world_names(ws0)[i] == x);
                            }
                        }
                    } else {
                        let j = choose|j: int| 0 <= j < ws1.len() && world_names(ws1)[j] == x;
                        assert(j < ws0.len());
                        assert(world_names(ws0)[j] == x);
                        lemma_key_index_prefix(world_names(ws0), nm, x);
                    }
                }
                assert forall|x: Seq<char>| world_names(ws1).contains(x) <==> (world_names(ws0).contains(x) || x == nm) by {
                    if world_names(ws1).contains(x) && x != nm {
                        let j = choose|j: int| 0 <= j < ws1.len() && world_names(ws1)[j] == x;
                        assert(world_names(ws0)[j] == x);
                    }
                    if world_names(ws0).contains(x) {
                        let j = choose|j: int| 0 <= j < ws0.len() && world_names(ws0)[j] == x;
                        assert(world_names(ws1)[j] == x);
                    }
                    if x == nm {
                        assert(world_names(ws1)[ws0.len() as int] == x);
                    }
                }
            }
        }
    }
}

proof fn lemma_key_index_prefix(ks: Seq<Seq<char>>, extra: Seq<char>, x: Seq<char>)
    requires
        ks.contains(x),
    ensures
        key_index(ks.push(extra), x, 0) == key_index(ks, x, 0),
{
    lemma_key_index(ks, x, 0);
    lemma_key_index(ks.push(extra), x, 0);
    let i = key_index(ks, x, 0);
    let j = choose|j: int| 0 <= j < ks.len() && ks[j] == x;
    assert(i <= j);
    let i2 = key_index(ks.push(extra), x, 0);
    assert(ks.push(extra)[i] == x);
    if i2 < i {
        assert(ks[i2] == x);
    }
}

/// Which world a query names: the named one, or the only one loaded.
pub open spec fn resolves_to(ws: Seq<(String, LkRoot)>, world: Option<Seq<char>>, r: Result<usize, LkError>) -> bool {
    match world {
        Some(n) => {
            let k = key_index(world_names(ws), n, 0);
            if k < ws.len() {
                r == Ok::<usize, LkError>(k as usize)
            } else {
                r matches Err(LkError::WorldNotFound(s)) && s@ == n
            }
        },
        None => if ws.len() == 1 {
            r == Ok::<usize, LkError>(0)
        } else if ws.len() == 0 {
            r matches Err(LkError::WorldNotFound(s)) && s@ == "no worlds loaded"@
        } else {
            r matches Err(LkError::InvalidInput(s)) && s@
                == "multiple worlds loaded; specify 'world' parameter"@
        },
    }
}

pub open spec fn opt_string_view(o: Option<String>) -> Option<Seq<char>> {
    opt_str(o)
}

/// `s` ends with `p`, compared after lowercasing `s`.
pub open spec fn mime_of(url: Seq<char>) -> Seq<char> {
    let l = lowercase(url);
    if ends_with(l, ".png"@) {
        "image/png"@
    } else if ends_with(l, ".jpg"@) || ends_with(l, ".jpeg"@) {
        "image/jpeg"@
    } else if ends_with(l, ".webp"@) {
        "image/webp"@
    } else {
        "image/png"@
    }
}

/// The MIME type an image URL suggests by its extension; PNG by default.
pub fn guess_mime_from_url(url: &str) -> (r: String)
    ensures
        r@ == mime_of(url@),
{
    let lower = to_lowercase(url);
    let l = chars_of(lower.as_str());
    if ends_with_chars(&l, &chars_of(".png")) {
        copy_str("image/png")
    } else if ends_with_chars(&l, &chars_of(".jpg")) || ends_with_chars(&l, &chars_of(".jpeg")) {
        copy_str("image/jpeg")
    } else if ends_with_chars(&l, &chars_of(".webp")) {
        copy_str("image/webp")
    } else {
        copy_str("image/png")
    }
}

/// The searchable text of a board record: a shape's `props.text`.
pub open spec fn board_record_text(val: Json) -> Seq<char> {
    if get_str(val, "typeName"@) != Some("shape"@) {
        seq![]
    } else {
        match get2_str(val, "props"@, "text"@) {
            Some(t) => t,
            None => seq![],
        }
    }
}

/// The text a board record shows: a shape's text, else nothing.
pub fn extract_text_from_board_record(record: &BoardRecord) -> (r: String)
    ensures
        r@ == board_record_text(record.val@),
{
    let is_shape = match record.val.get_str("typeName") {
        Some(t) => str_eq(t.as_str(), "shape"),
        None => false,
    };
    if !is_shape {
        return String::new();
    }
    match record.val.get("props") {
        Some(p) => match p.get_str("text") {
            Some(t) => t.clone(),
            None => String::new(),
        },
        None => String::new(),
    }
}

/// Whether `r` is a template: a child of a folder placed under `templates`.
pub open spec fn is_template(rs: Seq<Resource>, r: Resource) -> bool {
    match opt_str(r.parent_id) {
        Some(p) => exists|j: int|
            0 <= j < rs.len() && opt_str((#[trigger] rs[j]).parent_id) == Some("templates"@)
                && rs[j].id@ == p,
        None => false,
    }
}

/// The positions of the templates among the resources, in order.
pub open spec fn template_positions(rs: Seq<Resource>, k: int) -> Seq<int>
    decreases k,
{
    if k <= 0 || k > rs.len() {
        seq![]
    } else if is_template(rs, rs[k - 1]) {
        template_positions(rs, k - 1).push(k - 1)
    } else {
        template_positions(rs, k - 1)
    }
}

fn is_template_exec(rs: &Vec<Resource>, r: &Resource) -> (b: bool)
    ensures
        b == is_template(rs@, *r),
{
    let p = match &r.parent_id {
        Some(p) => p,
        None => {
            return false;
        },
    };
    let mut j: usize = 0;
    while j < rs.len()
        invariant
            j <= rs.len(),
            r.parent_id == Some(*p),
            forall|k: int|
                0 <= k < j ==> !(opt_str((#[trigger] rs@[k]).parent_id) == Some("templates"@)
                    && rs@[k].id@ == p@),
        decreases rs.len() - j,
    {
        let under = match &rs[j].parent_id {
            Some(q) => str_eq(q.as_str(), "templates"),
            None => false,
        };
        if under && str_eq(rs[j].id.as_str(), p.as_str()) {
            return true;
        }
        j = j + 1;
    }
    false
}

/// The positions of the template resources of a world, in order.
pub fn extract_templates(root: &LkRoot) -> (r: Vec<usize>)
    ensures
        r@.len() == template_positions(root.resources@, root.resources.len() as int).len(),
        forall|i: int|
            0 <= i < r.len() ==> r@[i] as int == template_positions(
                root.resources@,
                root.resources.len() as int,
            )[i],
{
    let rs = &root.resources;
    let mut out: Vec<usize> = Vec::new();
    let mut k: usize = 0;
    while k < rs.len()
        invariant
            k <= rs.len(),
            out@.len() == template_positions(rs@, k as int).len(),
            forall|i: int| 0 <= i < out.len() ==> out@[i] as int == template_positions(rs@, k as int)[i],
        decreases rs.len() - k,
    {
        if is_template_exec(rs, &rs[k]) {
            out.push(k);
        }
        k = k + 1;
    }
    out
}

impl WorldStore {
    /// The world a query is about: the named one, or else the only one.
    pub fn resolve_world(&self, world: &Option<String>) -> (r: Result<usize, LkError>)
        ensures
            resolves_to(self.worlds@, opt_str(*world), r),
            r matches Ok(k) ==> k < self.worlds.len(),
    {
        match world {
            Some(name) => {
                let k = self.find_world(name.as_str());
                if k < self.worlds.len() {
                    Ok(k)
                } else {
                    Err(LkError::WorldNotFound(name.clone()))
                }
            },
            None => {
                if self.worlds.len() == 1 {
                    Ok(0)
                } else if self.worlds.len() == 0 {
                    Err(LkError::WorldNotFound(copy_str("no worlds loaded")))
                } else {
                    Err(LkError::InvalidInput(copy_str("multiple worlds loaded; specify 'world' parameter")))
                }
            },
        }
    }

    /// A loaded world by name.
    pub fn get_world(&self, name: &str) -> (r: Result<&LkRoot, LkError>)
        ensures
            self.world_map().contains_key(name@) ==> (r matches Ok(x) && *x == self.world_map()[name@]),
            !self.world_map().contains_key(name@) ==> (r matches Err(LkError::WorldNotFound(s)) && s@
                == name@),
    {
        let k = self.find_world(name);
        if k < self.worlds.len() {
            Ok(&self.worlds[k].1)
        } else {
            Err(LkError::WorldNotFound(copy_str(name)))
        }
    }

    /// A resource of a world by id, or else by name compared without case.
    pub fn get_resource(&self, world: &Option<String>, id_or_name: &str) -> (r: Result<&Resource, LkError>)
        ensures
            ({
                let w = resolve_spec_idx(self.worlds@, opt_str(*world));
                match w {
                    None => r is Err && resolves_to(self.worlds@, opt_str(*world), Err(r->Err_0)),
                    Some(k) => {
                        let rs = self.worlds@[k].1.resources@;
                        if has_res(rs, id_or_name@) {
                            r matches Ok(x) && *x == rs[res_index(rs, id_or_name@)]
                        } else if name_index(rs, id_or_name@) < rs.len() {
                            r matches Ok(x) && *x == rs[name_index(rs, id_or_name@)]
                        } else {
                            r matches Err(LkError::ResourceNotFound(s)) && s@ == id_or_name@
                        }
                    },
                }
            }),
    {
        proof {
            if let Some(n) = world {
                lemma_key_index(world_names(self.worlds@), n@, 0);
            }
        }
        let k = match self.resolve_world(world) {
            Ok(k) => k,
            Err(e) => {
                return Err(e);
            },
        };
        assert(resolve_spec_idx(self.worlds@, opt_str(*world)) == Some(k as int));
        let rs = &self.worlds[k].1.resources;
        let i = crate::lk::builder::find_resource_pub(rs, id_or_name);
        if i < rs.len() {
            return Ok(&rs[i]);
        }
        let j = crate::lk::builder::find_name_pub(rs, id_or_name);
        if j < rs.len() {
            Ok(&rs[j])
        } else {
            Err(LkError::ResourceNotFound(copy_str(id_or_name)))
        }
    }
}

/// The world a query resolves to, if any.
pub open spec fn resolve_spec_idx(ws: Seq<(String, LkRoot)>, world: Option<Seq<char>>) -> Option<int> {
    match world {
        Some(n) => {
            let k = key_index(world_names(ws), n, 0);
            if k < ws.len() {
                Some(k)
            } else {
                None
            }
        },
        None => if ws.len() == 1 {
            Some(0)
        } else {
            None
        },
    }
}

// ---------------------------------------------------------------------------
// Calendars and templates
// ---------------------------------------------------------------------------

pub open spec fn cal_ids(cs: Seq<Calendar>) -> Seq<Seq<char>> {
    Seq::new(cs.len(), |i: int| cs[i].id@)
}

pub open spec fn cal_lower_names(cs: Seq<Calendar>) -> Seq<Seq<char>> {
    Seq::new(cs.len(), |i: int| lowercase(cs[i].name@))
}

/// What `get_template_properties` gives for template `name`: its property
/// blocks with fresh ids, its tags and its icon; or the error.
pub open spec fn template_result(
    ws: Seq<(String, LkRoot)>,
    world: Option<Seq<char>>,
    name: Seq<char>,
    r: Result<(Vec<Property>, Vec<String>, TemplateIcon), LkError>,
) -> bool {
    match resolve_spec_idx(ws, world) {
        None => r is Err && resolves_to(ws, world, Err(r->Err_0)),
        Some(k) => {
            let rs = ws[k].1.resources@;
            let tp = template_positions(rs, rs.len() as int);
            let t = key_index(template_lower_names(rs), lowercase(name), 0);
            if t < tp.len() {
                let tr = rs[tp[t]];
                r matches Ok(v) && v.0.len() == tr.properties.len() && (forall|i: int|
                    0 <= i < tr.properties.len() ==> fresh_property(
                        tr.properties@[i],
                        #[trigger] v.0@[i],
                    )) && v.1@ == tr.tags@ && v.2.icon_color == tr.icon_color
                    && v.2.icon_glyph == tr.icon_glyph && v.2.icon_shape == tr.icon_shape
            } else {
                r matches Err(LkError::InvalidInput(s)) && s@ == "Template '"@
                    + name + "' not found"@
            }
        },
    }
}

/// Whether the template `name` is found.
pub open spec fn template_found(ws: Seq<(String, LkRoot)>, world: Option<Seq<char>>, name: Seq<char>) -> bool {
    match resolve_spec_idx(ws, world) {
        None => false,
        Some(k) => {
            let rs = ws[k].1.resources@;
            key_index(template_lower_names(rs), lowercase(name), 0) < template_positions(
                rs,
                rs.len() as int,
            ).len()
        },
    }
}

/// `q` is a copy of property `p` with a fresh id.
pub open spec fn fresh_property(p: Property, q: Property) -> bool {
    &&& is_record_id(q.id@)
    &&& q.pos == p.pos
    &&& q.prop_type == p.prop_type
    &&& q.title == p.title
    &&& q.is_hidden == p.is_hidden
    &&& q.is_title_hidden == p.is_title_hidden
    &&& crate::json::opt_json(q.data) == crate::json::opt_json(p.data)
}

/// `t` lists template resource `r`.
pub open spec fn lists_template(t: TemplateSummary, r: Resource) -> bool {
    &&& t.name == r.name
    &&& t.tags@ == r.tags@
    &&& t.properties.len() == r.properties.len()
    &&& forall|j: int|
        0 <= j < r.properties.len() ==> (#[trigger] t.properties@[j]).prop_type
            == r.properties@[j].prop_type && t.properties@[j].title == r.properties@[j].title
}

/// The lowercased names of the templates, in order.
pub open spec fn template_lower_names(rs: Seq<Resource>) -> Seq<Seq<char>> {
    let tp = template_positions(rs, rs.len() as int);
    Seq::new(tp.len(), |i: int| lowercase(rs[tp[i]].name@))
}

proof fn lemma_template_positions(rs: Seq<Resource>, k: int)
    requires
        0 <= k <= rs.len(),
    ensures
        forall|i: int|
            0 <= i < template_positions(rs, k).len() ==> 0 <= #[trigger] template_positions(rs, k)[i]
                < k,
    decreases k,
{
    if k > 0 {
        lemma_template_positions(rs, k - 1);
        let prev = template_positions(rs, k - 1);
        assert forall|i: int|
            0 <= i < template_positions(rs, k).len() implies 0 <= #[trigger] template_positions(rs, k)[i]
                < k by {
            if i < prev.len() {
                assert(template_positions(rs, k)[i] == prev[i]);
            }
        }
    }
}

fn template_summary(r: &Resource) -> (t: TemplateSummary)
    ensures
        lists_template(t, *r),
{
    let mut props: Vec<TemplatePropertySummary> = Vec::new();
    let mut j: usize = 0;
    while j < r.properties.len()
        invariant
            j <= r.properties.len(),
            props.len() == j,
            forall|i: int|
                0 <= i < j ==> (#[trigger] props@[i]).prop_type == r.properties@[i].prop_type
                    && props@[i].title == r.properties@[i].title,
        decreases r.properties.len() - j,
    {
        props.push(
            TemplatePropertySummary {
                prop_type: r.properties[j].prop_type.clone(),
                title: r.properties[j].title.clone(),
            },
        );
        j = j + 1;
    }
    TemplateSummary { name: r.name.clone(), tags: crate::text::clone_strings(&r.tags), properties: props }
}

fn fresh_properties(ps: &Vec<Property>) -> (r: Vec<Property>)
    ensures
        r.len() == ps.len(),
        forall|i: int| 0 <= i < ps.len() ==> fresh_property(ps@[i], #[trigger] r@[i]),
{
    let mut out: Vec<Property> = Vec::new();
    let mut i: usize = 0;
    while i < ps.len()
        invariant
            i <= ps.len(),
            out.len() == i,
            forall|k: int| 0 <= k < i ==> fresh_property(ps@[k], #[trigger] out@[k]),
        decreases ps.len() - i,
    {
        let p = &ps[i];
        out.push(
            Property {
                id: generate_id(),
                pos: p.pos.clone(),
                prop_type: p.prop_type.clone(),
                title: p.title.clone(),
                is_hidden: p.is_hidden,
                is_title_hidden: p.is_title_hidden,
                data: crate::json::clone_opt_json(&p.data),
            },
        );
        i = i + 1;
    }
    out
}

impl WorldStore {
    /// A calendar of a world by id, or else by name compared without case.
    pub fn get_calendar(&self, world: &Option<String>, id_or_name: &str) -> (r: Result<&Calendar, LkError>)
        ensures
            ({
                match resolve_spec_idx(self.worlds@, opt_str(*world)) {
                    None => r is Err && resolves_to(self.worlds@, opt_str(*world), Err(r->Err_0)),
                    Some(k) => {
                        let cs = self.worlds@[k].1.calendars@;
                        let a = key_index(cal_ids(cs), id_or_name@, 0);
                        let b = key_index(cal_lower_names(cs), lowercase(id_or_name@), 0);
                        if a < cs.len() {
                            r matches Ok(x) && *x == cs[a]
                        } else if b < cs.len() {
                            r matches Ok(x) && *x == cs[b]
                        } else {
                            r matches Err(LkError::CalendarNotFound(s)) && s@ == id_or_name@
                        }
                    },
                }
            }),
    {
        proof {
            if let Some(n) = world {
                lemma_key_index(world_names(self.worlds@), n@, 0);
            }
        }
        let k = match self.resolve_world(world) {
            Ok(k) => k,
            Err(e) => {
                return Err(e);
            },
        };
        assert(resolve_spec_idx(self.worlds@, opt_str(*world)) == Some(k as int));
        let cs = &self.worlds[k].1.calendars;
        let ghost ids = cal_ids(cs@);
        proof { lemma_key_index(ids, id_or_name@, 0); }
        let mut i: usize = 0;
        while i < cs.len()
            invariant
                i <= cs.len(),
                ids == cal_ids(cs@),
                key_index(ids, id_or_name@, 0) == key_index(ids, id_or_name@, i as int),
                resolve_spec_idx(self.worlds@, opt_str(*world)) == Some(k as int),
                k < self.worlds.len(),
                *cs == self.worlds@[k as int].1.calendars,
            decreases cs.len() - i,
        {
            if str_eq(cs[i].id.as_str(), id_or_name) {
                assert(key_index(ids, id_or_name@, i as int) == i);
                return Ok(&cs[i]);
            }
            i = i + 1;
        }
        let lower = to_lowercase(id_or_name);
        let ghost ln = cal_lower_names(cs@);
        proof { lemma_key_index(ln, lower@, 0); }
        let mut j: usize = 0;
        while j < cs.len()
            invariant
                j <= cs.len(),
                ln == cal_lower_names(cs@),
                lower@ == lowercase(id_or_name@),
                key_index(ln, lower@, 0) == key_index(ln, lower@, j as int),
                key_index(ids, id_or_name@, 0) == cs.len(),
                ids == cal_ids(cs@),
                resolve_spec_idx(self.worlds@, opt_str(*world)) == Some(k as int),
                k < self.worlds.len(),
                *cs == self.worlds@[k as int].1.calendars,
            decreases cs.len() - j,
        {
            let n = to_lowercase(cs[j].name.as_str());
            assert(ln[j as int] == n@);
            if str_eq(n.as_str(), lower.as_str()) {
                assert(key_index(ln, lower@, j as int) == j);
                return Ok(&cs[j]);
            }
            j = j + 1;
        }
        Err(LkError::CalendarNotFound(copy_str(id_or_name)))
    }

    /// The templates of a world, with their tags and property blocks.
    pub fn list_templates(&self, world: &Option<String>) -> (r: Result<Vec<TemplateSummary>, LkError>)
        ensures
            ({
                match resolve_spec_idx(self.worlds@, opt_str(*world)) {
                    None => r is Err && resolves_to(self.worlds@, opt_str(*world), Err(r->Err_0)),
                    Some(k) => {
                        let rs = self.worlds@[k].1.resources@;
                        let tp = template_positions(rs, rs.len() as int);
                        r matches Ok(v) && v.len() == tp.len() && forall|i: int|
                            0 <= i < v.len() ==> lists_template(#[trigger] v@[i], rs[tp[i]])
                    },
                }
            }),
    {
        proof {
            if let Some(n) = world {
                lemma_key_index(world_names(self.worlds@), n@, 0);
            }
        }
        let k = match self.resolve_world(world) {
            Ok(k) => k,
            Err(e) => {
                return Err(e);
            },
        };
        assert(resolve_spec_idx(self.worlds@, opt_str(*world)) == Some(k as int));
        let root = &self.worlds[k].1;
        let tp = extract_templates(root);
        proof { lemma_template_positions(root.resources@, root.resources.len() as int); }
        let ghost tps = template_positions(root.resources@, root.resources.len() as int);
        let mut out: Vec<TemplateSummary> = Vec::new();
        let mut i: usize = 0;
        while i < tp.len()
            invariant
                i <= tp.len(),
                tps == template_positions(root.resources@, root.resources.len() as int),
                tp@.len() == tps.len(),
                forall|j: int| 0 <= j < tp.len() ==> tp@[j] as int == tps[j],
                forall|j: int| 0 <= j < tps.len() ==> 0 <= #[trigger] tps[j] < root.resources.len(),
                out.len() == i,
                forall|j: int| 0 <= j < i ==> lists_template(#[trigger] out@[j], root.resources@[tps[j]]),
            decreases tp.len() - i,
        {
            assert(0 <= tps[i as int] < root.resources.len());
            out.push(template_summary(&root.resources[tp[i]]));
            i = i + 1;
        }
        Ok(out)
    }

    /// The property blocks of a template (by name, without case), with fresh
    /// ids; its tags; and its icon.
    pub fn get_template_properties(&self, world: &Option<String>, template_name: &str) -> (r: Result<
        (Vec<Property>, Vec<String>, TemplateIcon),
        LkError,
    >)
        ensures
            template_result(self.worlds@, opt_str(*world), template_name@, r),
    {
        proof {
            if let Some(n) = world {
                lemma_key_index(world_names(self.worlds@), n@, 0);
            }
        }
        let k = match self.resolve_world(world) {
            Ok(k) => k,
            Err(e) => {
                return Err(e);
            },
        };
        assert(resolve_spec_idx(self.worlds@, opt_str(*world)) == Some(k as int));
        let root = &self.worlds[k].1;
        let rs = &root.resources;
        let tp = extract_templates(root);
        proof { lemma_template_positions(rs@, rs.len() as int); }
        let ghost tps = template_positions(rs@, rs.len() as int);
        let ghost ln = template_lower_names(rs@);
        let lower = to_lowercase(template_name);
        proof { lemma_key_index(ln, lower@, 0); }
        let mut i: usize = 0;
        while i < tp.len()
            invariant
                i <= tp.len(),
                tps == template_positions(rs@, rs.len() as int),
                ln == template_lower_names(rs@),
                lower@ == lowercase(template_name@),
                tp@.len() == tps.len(),
                forall|j: int| 0 <= j < tp.len() ==> tp@[j] as int == tps[j],
                forall|j: int| 0 <= j < tps.len() ==> 0 <= #[trigger] tps[j] < rs.len(),
                key_index(ln, lower@, 0) == key_index(ln, lower@, i as int),
                resolve_spec_idx(self.worlds@, opt_str(*world)) == Some(k as int),
                k < self.worlds.len(),
                *rs == self.worlds@[k as int].1.resources,
            decreases tp.len() - i,
        {
            assert(0 <= tps[i as int] < rs.len());
            let t = &rs[tp[i]];
            let n = to_lowercase(t.name.as_str());
            assert(ln[i as int] == n@);
            if str_eq(n.as_str(), lower.as_str()) {
                assert(key_index(ln, lower@, i as int) == i);
                let props = fresh_properties(&t.properties);
                let icon = TemplateIcon {
                    icon_color: crate::text::clone_opt_string(&t.icon_color),
                    icon_glyph: crate::text::clone_opt_string(&t.icon_glyph),
                    icon_shape: crate::text::clone_opt_string(&t.icon_shape),
                };
                return Ok((props, crate::text::clone_strings(&t.tags), icon));
            }
            i = i + 1;
        }
        let mut m = crate::text::cat("Template '", template_name);
        m.push_str("' not found");
        Err(LkError::InvalidInput(m))
    }
}

// ---------------------------------------------------------------------------
// Listing worlds and resources
// ---------------------------------------------------------------------------

/// The world guide: the first page of the first resource tagged
/// `llm-guide` (without ASCII case), as markdown, unless it is blank.
pub open spec fn world_guide(rs: Seq<Resource>) -> Option<Seq<char>> {
    let gi = key_index(guide_flags(rs), seq!['y'], 0);
    if gi >= rs.len() {
        None
    } else {
        let ds = rs[gi].documents@;
        let d = key_index(crate::lk::builder::doc_types(ds), "page"@, 0);
        if d >= ds.len() {
            None
        } else {
            match ds[d].content {
                None => None,
                Some(c) => {
                    let md = crate::prosemirror::to_markdown::to_markdown_spec(c@);
                    if crate::text::trim_spec(md).len() == 0 {
                        None
                    } else {
                        Some(md)
                    }
                },
            }
        }
    }
}

pub open spec fn has_tag(r: Resource, t: Seq<char>) -> bool {
    exists|i: int| 0 <= i < r.tags.len() && crate::text::eq_ignore_ascii((#[trigger] r.tags@[i])@, t)
}

/// For each resource, "y" when it is tagged as the guide.
pub open spec fn guide_flags(rs: Seq<Resource>) -> Seq<Seq<char>> {
    Seq::new(rs.len(), |i: int| if has_tag(rs[i], "llm-guide"@) { seq!['y'] } else { seq!['n'] })
}

fn has_tag_exec(r: &Resource, t: &str) -> (b: bool)
    ensures
        b == has_tag(*r, t@),
{
    let mut i: usize = 0;
    while i < r.tags.len()
        invariant
            i <= r.tags.len(),
            forall|k: int| 0 <= k < i ==> !crate::text::eq_ignore_ascii((#[trigger] r.tags@[k])@, t@),
        decreases r.tags.len() - i,
    {
        if crate::text::eq_ignore_ascii_case(r.tags[i].as_str(), t) {
            return true;
        }
        i = i + 1;
    }
    false
}

/// The guide of a world, as markdown.
pub fn extract_world_guide(root: &LkRoot) -> (r: Option<String>)
    ensures
        opt_str(r) == world_guide(root.resources@),
{
    let rs = &root.resources;
    let ghost flags = guide_flags(rs@);
    proof { lemma_key_index(flags, seq!['y'], 0); }
    assert(seq!['n'] != seq!['y']) by {
        assert(seq!['n'][0] != seq!['y'][0]);
    }
    let mut i: usize = 0;
    while i < rs.len() && !has_tag_exec(&rs[i], "llm-guide")
        invariant
            i <= rs.len(),
            flags == guide_flags(rs@),
            seq!['n'] != seq!['y'],
            key_index(flags, seq!['y'], 0) == key_index(flags, seq!['y'], i as int),
        decreases rs.len() - i,
    {
        assert(flags[i as int] == seq!['n']);
        i = i + 1;
    }
    if i == rs.len() {
        return None;
    }
    assert(flags[i as int] == seq!['y']);
    assert(key_index(flags, seq!['y'], 0) == i);
    let ds = &rs[i].documents;
    let ghost dt = crate::lk::builder::doc_types(ds@);
    proof { lemma_key_index(dt, "page"@, 0); }
    let mut d: usize = 0;
    while d < ds.len() && !str_eq(ds[d].doc_type.as_str(), "page")
        invariant
            d <= ds.len(),
            dt == crate::lk::builder::doc_types(ds@),
            key_index(dt, "page"@, 0) == key_index(dt, "page"@, d as int),
        decreases ds.len() - d,
    {
        d = d + 1;
    }
    if d == ds.len() {
        return None;
    }
    assert(key_index(dt, "page"@, d as int) == d);
    match &ds[d].content {
        None => None,
        Some(c) => {
            let md = crate::prosemirror::to_markdown::to_markdown(c);
            let t = crate::text::trim_str(md.as_str());
            if crate::text::str_is_empty(t.as_str()) {
                None
            } else {
                Some(md)
            }
        },
    }
}

/// What a world listing shows of a world.
pub open spec fn lists_world(s: WorldSummary, name: Seq<char>, root: LkRoot) -> bool {
    &&& s.name@ == name
    &&& s.resource_count == root.resources.len()
    &&& s.calendar_count == root.calendars.len()
    &&& opt_str(s.guide) == world_guide(root.resources@)
}

pub open spec fn summary_names(v: Seq<WorldSummary>) -> Seq<Seq<char>> {
    Seq::new(v.len(), |i: int| v[i].name@)
}

impl WorldStore {
    /// The loaded worlds, by name in order.
    pub fn list_worlds(&self) -> (r: Vec<WorldSummary>)
        requires
            self.wf(),
        ensures
            crate::text::sorted_strict(summary_names(r@)),
            forall|x: Seq<char>| summary_names(r@).contains(x) <==> self.world_map().contains_key(x),
            forall|i: int|
                0 <= i < r.len() ==> lists_world(
                    #[trigger] r@[i],
                    r@[i].name@,
                    self.world_map()[r@[i].name@],
                ),
    {
        let mut names: Vec<String> = Vec::new();
        let mut i: usize = 0;
        assert(crate::text::str_views(names@) =~= Seq::<Seq<char>>::empty());
        while i < self.worlds.len()
            invariant
                i <= self.worlds.len(),
                crate::text::sorted_strict(crate::text::str_views(names@)),
                forall|x: Seq<char>|
                    crate::text::str_views(names@).contains(x) <==> world_names(self.worlds@).take(
                        i as int,
                    ).contains(x),
            decreases self.worlds.len() - i,
        {
            let ghost before = world_names(self.worlds@).take(i as int);
            crate::text::sorted_insert(&mut names, self.worlds[i].0.clone());
            proof {
                let after = world_names(self.worlds@).take(i + 1);
                assert(after =~= before.push(self.worlds@[i as int].0@));
                assert forall|x: Seq<char>| after.contains(x) <==> (before.contains(x) || x
                    == self.worlds@[i as int].0@) by {
                    if after.contains(x) && x != self.worlds@[i as int].0@ {
                        let j = choose|j: int| 0 <= j < after.len() && after[j] == x;
                        assert(before[j] == x);
                    }
                    if before.contains(x) {
                        let j = choose|j: int| 0 <= j < before.len() && before[j] == x;
                        assert(after[j] == x);
                    }
                    if x == self.worlds@[i as int].0@ {
                        assert(after[i as int] == x);
                    }
                }
            }
            i = i + 1;
        }
        assert(world_names(self.worlds@).take(self.worlds.len() as int) =~= world_names(self.worlds@));
        let mut out: Vec<WorldSummary> = Vec::new();
        let mut j: usize = 0;
        while j < names.len()
            invariant
                j <= names.len(),
                self.wf(),
                crate::text::sorted_strict(crate::text::str_views(names@)),
                forall|x: Seq<char>|
                    crate::text::str_views(names@).contains(x) <==> world_names(self.worlds@).contains(x),
                out.len() == j,
                forall|k: int| 0 <= k < j ==> (#[trigger] out@[k]).name@ == names@[k]@,
                forall|k: int|
                    0 <= k < j ==> lists_world(
                        #[trigger] out@[k],
                        out@[k].name@,
                        self.world_map()[out@[k].name@],
                    ),
            decreases names.len() - j,
        {
            assert(crate::text::str_views(names@)[j as int] == names@[j as int]@);
            assert(crate::text::str_views(names@).contains(names@[j as int]@));
            let k = self.find_world(names[j].as_str());
            assert(self.world_map()[names@[j as int]@] == self.worlds@[k as int].1);
            let root = &self.worlds[k].1;
            let guide = extract_world_guide(root);
            out.push(
                WorldSummary {
                    name: names[j].clone(),
                    resource_count: root.resources.len(),
                    calendar_count: root.calendars.len(),
                    guide,
                },
            );
            j = j + 1;
        }
        assert(summary_names(out@) =~= crate::text::str_views(names@));
        out
    }
}

pub open spec fn summary_model(s: ResourceSummary) -> (Seq<char>, Seq<char>, Seq<Seq<char>>, Option<Seq<char>>, bool) {
    (s.id@, s.name@, crate::text::str_views(s.tags@), opt_str(s.parent_id), s.is_hidden)
}

pub open spec fn resource_model(r: Resource) -> (Seq<char>, Seq<char>, Seq<Seq<char>>, Option<Seq<char>>, bool) {
    (r.id@, r.name@, crate::text::str_views(r.tags@), opt_str(r.parent_id), r.is_hidden)
}

/// A resource passes the tag filter (a tag equal without ASCII case) and the
/// name filter (the lowercased name holds the lowercased text).
pub open spec fn resource_matches(r: Resource, tag: Option<Seq<char>>, name: Option<Seq<char>>) -> bool {
    &&& match tag {
        Some(t) => has_tag(r, t),
        None => true,
    }
    &&& match name {
        Some(n) => crate::text::contains_seq(lowercase(r.name@), lowercase(n)),
        None => true,
    }
}

/// The tag filter ignores ASCII case: a resource passes exactly when one of
/// its tags has the filter's length and agrees with it letter by letter once
/// ASCII letters are lowercased (`NPC` passes the filter `npc`).
pub proof fn law_tag_filter_ignores_ascii_case(r: Resource, t: Seq<char>)
    ensures
        resource_matches(r, Some(t), None) <==> exists|i: int|
            0 <= i < r.tags.len() && (#[trigger] r.tags@[i])@.len() == t.len() && forall|j: int|
                0 <= j < t.len() ==> crate::text::ascii_lower(r.tags@[i]@[j]) == crate::text::ascii_lower(
                    t[j],
                ),
{
}

/// The name filter is a substring match without regard to case: a resource
/// passes exactly when it passes the tag filter and its lowercased name holds
/// the lowercased text somewhere, not only at its start.
pub proof fn law_name_filter_is_substring(r: Resource, tag: Option<Seq<char>>, n: Seq<char>)
    ensures
        resource_matches(r, tag, Some(n)) <==> resource_matches(r, tag, None) && exists|j: int|
            #[trigger] crate::text::occurs_at(lowercase(r.name@), lowercase(n), j),
{
    crate::text::lemma_contains_occurs(lowercase(r.name@), lowercase(n));
}

/// The models of the first `k` resources that pass the filters.
pub open spec fn matching(rs: Seq<Resource>, tag: Option<Seq<char>>, name: Option<Seq<char>>, k: int) -> Seq<
    (Seq<char>, Seq<char>, Seq<Seq<char>>, Option<Seq<char>>, bool),
>
    decreases k,
{
    if k <= 0 || k > rs.len() {
        seq![]
    } else if resource_matches(rs[k - 1], tag, name) {
        matching(rs, tag, name, k - 1).push(resource_model(rs[k - 1]))
    } else {
        matching(rs, tag, name, k - 1)
    }
}

/// Where a stable sort by name puts `x` among the first `k` of `s`: after
/// every entry whose name is not greater.
pub open spec fn ins_pos(
    s: Seq<(Seq<char>, Seq<char>, Seq<Seq<char>>, Option<Seq<char>>, bool)>,
    x: Seq<char>,
    k: int,
) -> int
    decreases k,
{
    if k > 0 && k <= s.len() && crate::text::seq_lt(x, s[k - 1].1) {
        ins_pos(s, x, k - 1)
    } else {
        k
    }
}

/// The entries sorted by name, entries of equal names kept in their order.
pub open spec fn sort_by_name(s: Seq<(Seq<char>, Seq<char>, Seq<Seq<char>>, Option<Seq<char>>, bool)>) -> Seq<
    (Seq<char>, Seq<char>, Seq<Seq<char>>, Option<Seq<char>>, bool),
>
    decreases s.len(),
{
    if s.len() == 0 {
        s
    } else {
        let sorted = sort_by_name(s.drop_last());
        let p = ins_pos(sorted, s.last().1, sorted.len() as int);
        sorted.take(p).push(s.last()) + sorted.skip(p)
    }
}

pub open spec fn summary_models(v: Seq<ResourceSummary>) -> Seq<
    (Seq<char>, Seq<char>, Seq<Seq<char>>, Option<Seq<char>>, bool),
> {
    Seq::new(v.len(), |i: int| summary_model(v[i]))
}

fn resource_matches_exec(r: &Resource, tag: &Option<String>, name: &Option<String>) -> (b: bool)
    ensures
        b == resource_matches(*r, opt_str(*tag), opt_str(*name)),
{
    let tag_ok = match tag {
        Some(t) => has_tag_exec(r, t.as_str()),
        None => true,
    };
    let name_ok = match name {
        Some(n) => {
            let ln = to_lowercase(r.name.as_str());
            let q = to_lowercase(n.as_str());
            crate::text::contains_str(ln.as_str(), q.as_str())
        },
        None => true,
    };
    tag_ok && name_ok
}

proof fn lemma_ins_pos_bounds(s: Seq<(Seq<char>, Seq<char>, Seq<Seq<char>>, Option<Seq<char>>, bool)>, x: Seq<char>, k: int)
    requires
        0 <= k <= s.len(),
    ensures
        0 <= ins_pos(s, x, k) <= k,
    decreases k,
{
    if k > 0 && crate::text::seq_lt(x, s[k - 1].1) {
        lemma_ins_pos_bounds(s, x, k - 1);
    }
}

impl WorldStore {
    /// The resources of a world that pass the tag and name filters, sorted
    /// by name.
    pub fn list_resources(
        &self,
        world: &Option<String>,
        tag: &Option<String>,
        name: &Option<String>,
    ) -> (r: Result<Vec<ResourceSummary>, LkError>)
        ensures
            ({
                match resolve_spec_idx(self.worlds@, opt_str(*world)) {
                    None => r is Err && resolves_to(self.worlds@, opt_str(*world), Err(r->Err_0)),
                    Some(k) => {
                        let rs = self.worlds@[k].1.resources@;
                        r matches Ok(v) && summary_models(v@) == sort_by_name(
                            matching(rs, opt_str(*tag), opt_str(*name), rs.len() as int),
                        )
                    },
                }
            }),
    {
        proof {
            if let Some(n) = world {
                lemma_key_index(world_names(self.worlds@), n@, 0);
            }
        }
        let k = match self.resolve_world(world) {
            Ok(k) => k,
            Err(e) => {
                return Err(e);
            },
        };
        assert(resolve_spec_idx(self.worlds@, opt_str(*world)) == Some(k as int));
        let rs = &self.worlds[k].1.resources;
        let ghost tg = opt_str(*tag);
        let ghost nm = opt_str(*name);
        let mut out: Vec<ResourceSummary> = Vec::new();
        let mut i: usize = 0;
        assert(summary_models(out@) =~= sort_by_name(matching(rs@, tg, nm, 0)));
        while i < rs.len()
            invariant
                i <= rs.len(),
                tg == opt_str(*tag),
                nm == opt_str(*name),
                summary_models(out@) == sort_by_name(matching(rs@, tg, nm, i as int)),
            decreases rs.len() - i,
        {
            let r = &rs[i];
            if resource_matches_exec(r, tag, name) {
                let x = ResourceSummary {
                    id: r.id.clone(),
                    name: r.name.clone(),
                    tags: crate::text::clone_strings(&r.tags),
                    parent_id: crate::text::clone_opt_string(&r.parent_id),
                    is_hidden: r.is_hidden,
                };
                let ghost sm = summary_models(out@);
                let ghost xm = summary_model(x);
                assert(xm == resource_model(rs@[i as int]));
                let mut p = out.len();
                proof { lemma_ins_pos_bounds(sm, xm.1, sm.len() as int); }
                while p > 0 && crate::text::str_lt(x.name.as_str(), out[p - 1].name.as_str())
                    invariant
                        p <= out.len(),
                        sm == summary_models(out@),
                        xm == summary_model(x),
                        ins_pos(sm, xm.1, sm.len() as int) == ins_pos(sm, xm.1, p as int),
                    decreases p,
                {
                    assert(sm[p - 1].1 == out@[p - 1].name@);
                    p = p - 1;
                }
                proof {
                    if p > 0 {
                        assert(sm[p - 1].1 == out@[p - 1].name@);
                    }
                    assert(ins_pos(sm, xm.1, p as int) == p);
                    let whole = matching(rs@, tg, nm, i + 1);
                    assert(whole == matching(rs@, tg, nm, i as int).push(xm));
                    assert(whole.drop_last() =~= matching(rs@, tg, nm, i as int));
                }
                out.insert(p, x);
                assert(summary_models(out@) =~= sm.take(p as int).push(xm) + sm.skip(p as int));
            }
            i = i + 1;
        }
        Ok(out)
    }
}

// ---------------------------------------------------------------------------
// Searching content
// ---------------------------------------------------------------------------

pub open spec fn is_block_type(t: Seq<char>) -> bool {
    t == "paragraph"@ || t == "heading"@ || t == "listItem"@ || t == "blockquote"@ || t
        == "codeBlock"@
}

/// The plain text of a ProseMirror node: its text, then its children's, a
/// space after each block child.
pub open spec fn pm_text(j: Json) -> Seq<char>
    decreases j, 1int, 0int,
{
    let own = match get_str(j, "text"@) {
        Some(t) => t,
        None => seq![],
    };
    proof {
        crate::prosemirror::to_markdown::lemma_get_decreases(j, "content"@);
    }
    match json_get(j, "content"@) {
        Some(Json::Array(a)) => own + pm_texts(a, a.len() as int),
        _ => own,
    }
}

pub open spec fn pm_texts(a: Seq<Json>, k: int) -> Seq<char>
    decreases a, 0int, k,
{
    if k <= 0 || k > a.len() {
        seq![]
    } else {
        let c = a[k - 1];
        let sep = match get_str(c, "type"@) {
            Some(t) => if is_block_type(t) {
                seq![' ']
            } else {
                seq![]
            },
            None => seq![],
        };
        pm_texts(a, k - 1) + pm_text(c) + sep
    }
}

fn extract_text_recursive(node: &JsonValue, out: &mut String)
    ensures
        final(out)@ == old(out)@ + pm_text(node@),
    decreases node,
{
    let ghost o0 = out@;
    match node.get_str("text") {
        Some(t) => out.push_str(t.as_str()),
        None => {},
    }
    let ghost o1 = out@;
    match crate::prosemirror::to_markdown::array_entry(node, "content") {
        None => {},
        Some(a) => {
            let ghost av = crate::prosemirror::from_markdown::jsons(a@);
            let mut i: usize = 0;
            assert(o1 + pm_texts(av, 0) =~= o1);
            while i < a.len()
                invariant
                    i <= a.len(),
                    av == crate::prosemirror::from_markdown::jsons(a@),
                    decreases_to!(*node => *a),
                    out@ == o1 + pm_texts(av, i as int),
                decreases a.len() - i,
            {
                assert(av[i as int] == a@[i as int]@);
                proof {
                    vstd::std_specs::vec::axiom_vec_index_decreases(*a, i as int);
                }
                let ghost before = out@;
                extract_text_recursive(&a[i], out);
                let block = match a[i].get_str("type") {
                    Some(t) => str_eq(t.as_str(), "paragraph") || str_eq(t.as_str(), "heading")
                        || str_eq(t.as_str(), "listItem") || str_eq(t.as_str(), "blockquote")
                        || str_eq(t.as_str(), "codeBlock"),
                    None => false,
                };
                if block {
                    out.push(' ');
                }
                assert(out@ =~= o1 + pm_texts(av, i + 1));
                i = i + 1;
            }
        },
    }
}

/// The plain text of ProseMirror JSON.
pub fn extract_text_from_prosemirror(node: &JsonValue) -> (r: String)
    ensures
        r@ == pm_text(node@),
{
    let mut out = String::new();
    extract_text_recursive(node, &mut out);
    out
}

/// What `char::to_lowercase` gives for `c`: Unicode's lowercase mapping.
pub uninterp spec fn char_lowercase(c: char) -> Seq<char>;

/// `char::to_lowercase`, collected: the lowercase mapping of `c`, named by
/// `char_lowercase`.
#[verifier::external_body]
fn char_to_lowercase(c: char) -> (r: String)
    ensures
        r@ == char_lowercase(c),
{
    c.to_lowercase().collect()
}

/// Bytes of the lowercase forms of the first `i` characters of `t`.
pub open spec fn lower_bytes(t: Seq<char>, i: int) -> nat
    decreases i,
{
    if i <= 0 || i > t.len() {
        0
    } else {
        lower_bytes(t, i - 1) + crate::text::byte_len(char_lowercase(t[i - 1]))
    }
}

/// The first character of `t` at or after `i` whose lowercase forms before
/// it reach `pos` bytes.
pub open spec fn orig_index(t: Seq<char>, pos: nat, i: int) -> int
    decreases t.len() - i,
{
    if i < 0 || i >= t.len() || lower_bytes(t, i) >= pos {
        if i < 0 {
            0
        } else {
            i
        }
    } else {
        orig_index(t, pos, i + 1)
    }
}

/// A snippet of `text` around the first match of `q` (already lowercased)
/// in its lowercase form: up to 50 characters before the match, the match
/// and 50 after, with `...` where text was cut.
pub open spec fn snippet_spec(text: Seq<char>, q: Seq<char>) -> Option<Seq<char>> {
    let tl = lowercase(text);
    match find_from(tl, q, 0) {
        None => None,
        Some(k) => {
            let pos = crate::text::byte_len(tl.take(k));
            let o = orig_index(text, pos, 0);
            let st = if o >= 50 {
                o - 50
            } else {
                0
            };
            let en = if o + q.len() + 50 <= text.len() {
                o + q.len() + 50
            } else {
                text.len() as int
            };
            Some(
                (if st > 0 {
                    "..."@
                } else {
                    seq![]
                }) + text.subrange(st, en) + (if en < text.len() {
                    "..."@
                } else {
                    seq![]
                }),
            )
        },
    }
}

fn byte_len_u128(s: &[char], n: usize) -> (r: u128)
    requires
        n <= s.len(),
    ensures
        r == crate::text::byte_len(s@.take(n as int)),
{
    let mut b: u128 = 0;
    let mut i: usize = 0;
    assert(s@.take(0) =~= Seq::<char>::empty());
    while i < n
        invariant
            i <= n,
            n <= s.len(),
            b == crate::text::byte_len(s@.take(i as int)),
            b <= 4 * i,
        decreases n - i,
    {
        let u = crate::text::utf8_len_exec(s[i]);
        proof {
            crate::text::lemma_byte_len_push(s@.take(i as int), s@[i as int]);
            assert(s@.take(i + 1) =~= s@.take(i as int).push(s@[i as int]));
        }
        b = b + u as u128;
        i = i + 1;
    }
    b
}

/// A snippet of `text` around the first match of `query_lower` in its
/// lowercase form, if it has one.
pub fn find_snippet(text: &str, query_lower: &str) -> (r: Option<String>)
    ensures
        opt_str(r) == snippet_spec(text@, query_lower@),
{
    let tl = to_lowercase(text);
    let tlc = chars_of(tl.as_str());
    let qc = chars_of(query_lower);
    let k = match crate::text::find_seq_from(&tlc, &qc, 0) {
        Some(k) => k,
        None => {
            return None;
        },
    };
    proof {
        crate::prosemirror::md_xml::lemma_find_from_bounds(tlc@, qc@, 0);
    }
    let pos = byte_len_u128(&tlc, k);
    let tc = chars_of(text);
    let mut lower_off: u128 = 0;
    let mut o: usize = 0;
    while o < tc.len() && lower_off < pos
        invariant
            o <= tc.len(),
            tc@ == text@,
            lower_off <= pos,
            lower_off < pos ==> lower_off == lower_bytes(tc@, o as int),
            lower_off == pos ==> lower_bytes(tc@, o as int) >= pos,
            orig_index(tc@, pos as nat, 0) == orig_index(tc@, pos as nat, o as int),
        decreases tc.len() - o,
    {
        let lc = char_to_lowercase(tc[o]);
        let lcc = chars_of(lc.as_str());
        let n = byte_len_u128(&lcc, lcc.len());
        assert(lcc@.take(lcc.len() as int) =~= lcc@);
        assert(lower_bytes(tc@, o + 1) == lower_bytes(tc@, o as int) + n);
        if n >= pos - lower_off {
            lower_off = pos;
        } else {
            lower_off = lower_off + n;
        }
        o = o + 1;
    }
    assert(orig_index(tc@, pos as nat, o as int) == o);
    let st = if o >= 50 {
        o - 50
    } else {
        0
    };
    let rem = tc.len() - o;
    let en = if qc.len() <= rem && 50 <= rem - qc.len() {
        o + qc.len() + 50
    } else {
        tc.len()
    };
    let mut s = String::new();
    if st > 0 {
        s.push_str("...");
    }
    let mid = crate::text::string_of_range(&tc, st, en);
    s.push_str(mid.as_str());
    if en < tc.len() {
        s.push_str("...");
    }
    Some(s)
}


// ---------------------------------------------------------------------------
// Timelines read from JSON
// ---------------------------------------------------------------------------

pub open spec fn str_field(j: Json, k: Seq<char>) -> bool {
    get_str(j, k) is Some
}

pub open spec fn opt_str_field(j: Json, k: Seq<char>) -> bool {
    match json_get(j, k) {
        None => true,
        Some(Json::Null) => true,
        Some(Json::Str(_)) => true,
        _ => false,
    }
}

pub open spec fn i64_field(j: Json, k: Seq<char>) -> bool {
    match json_get(j, k) {
        Some(v) => crate::json::json_i64(v) is Some,
        None => false,
    }
}

pub open spec fn opt_i64_field(j: Json, k: Seq<char>) -> bool {
    match json_get(j, k) {
        None => true,
        Some(Json::Null) => true,
        Some(v) => crate::json::json_i64(v) is Some,
    }
}

pub open spec fn opt_num_field(j: Json, k: Seq<char>) -> bool {
    match json_get(j, k) {
        None => true,
        Some(Json::Null) => true,
        Some(Json::Number(_)) => true,
        _ => false,
    }
}

pub open spec fn opt_bool_field(j: Json, k: Seq<char>) -> bool {
    match json_get(j, k) {
        None => true,
        Some(Json::Bool(_)) => true,
        _ => false,
    }
}

/// A string or null: an optional string field in array form.
pub open spec fn opt_str_elem(x: Json) -> bool {
    x is Null || x is Str
}

/// A timeline lane as serde reads it: an object with string `id`, `name`
/// and `pos`, and a `size`; or the array `[id, name, pos, size]`.
pub open spec fn lane_ok(l: Json) -> bool {
    match l {
        Json::Array(x) => x.len() == 4 && x[0] is Str && x[1] is Str && x[2] is Str,
        _ => l is Object && str_field(l, "id"@) && str_field(l, "name"@) && str_field(l, "pos"@)
            && json_get(l, "size"@) is Some,
    }
}

/// A timeline event as serde reads it: an object with the fields and types
/// its schema requires, or the array of all fifteen fields in order (id,
/// laneId, type, pos, detail, start, end, name, iconGlyph, color, imageUrl,
/// imageFit, opacity, isSynced, data).
pub open spec fn event_ok(e: Json) -> bool {
    match e {
        Json::Array(x) => {
            &&& x.len() == 15
            &&& x[0] is Str && x[1] is Str && x[2] is Str && x[3] is Str
            &&& crate::json::json_i64(x[5]) is Some
            &&& (x[6] is Null || crate::json::json_i64(x[6]) is Some)
            &&& x[7] is Str
            &&& opt_str_elem(x[8]) && opt_str_elem(x[9]) && opt_str_elem(x[10]) && opt_str_elem(x[11])
            &&& (x[12] is Null || x[12] is Number)
            &&& x[13] is Bool
        },
        _ => {
            &&& e is Object
            &&& str_field(e, "id"@)
            &&& str_field(e, "laneId"@)
            &&& str_field(e, "type"@)
            &&& str_field(e, "pos"@)
            &&& i64_field(e, "start"@)
            &&& opt_i64_field(e, "end"@)
            &&& str_field(e, "name"@)
            &&& opt_str_field(e, "iconGlyph"@)
            &&& opt_str_field(e, "color"@)
            &&& opt_str_field(e, "imageUrl"@)
            &&& opt_str_field(e, "imageFit"@)
            &&& opt_num_field(e, "opacity"@)
            &&& opt_bool_field(e, "isSynced"@)
        },
    }
}

/// The name of an event that reads.
pub open spec fn event_name(e: Json) -> Seq<char> {
    match e {
        Json::Array(x) => x[7]->Str_0,
        _ => get_str(e, "name"@)->0,
    }
}

pub open spec fn all_lanes_ok(a: Seq<Json>) -> bool {
    forall|i: int| 0 <= i < a.len() ==> lane_ok(#[trigger] a[i])
}

pub open spec fn all_events_ok(a: Seq<Json>) -> bool {
    forall|i: int| 0 <= i < a.len() ==> event_ok(#[trigger] a[i])
}

/// The lanes and events of a timeline's JSON, each where present: by name
/// from an object, or by position from an array of at most two elements.
pub open spec fn timeline_parts(j: Json) -> Option<(Option<Json>, Option<Json>)> {
    match j {
        Json::Object(_, _) => Some((json_get(j, "lanes"@), json_get(j, "events"@))),
        Json::Array(a) => if a.len() <= 2 {
            Some(
                (
                    if a.len() > 0 {
                        Some(a[0])
                    } else {
                        None
                    },
                    if a.len() > 1 {
                        Some(a[1])
                    } else {
                        None
                    },
                ),
            )
        } else {
            None
        },
        _ => None,
    }
}

pub open spec fn lanes_ok(l: Option<Json>) -> bool {
    match l {
        None => true,
        Some(Json::Array(a)) => all_lanes_ok(a),
        _ => false,
    }
}

/// The events of a timeline, when they read as events.
pub open spec fn timeline_events(ev: Option<Json>) -> Option<Seq<Json>> {
    match ev {
        None => Some(seq![]),
        Some(Json::Array(a)) => if all_events_ok(a) {
            Some(a)
        } else {
            None
        },
        _ => None,
    }
}

/// The event names of a timeline's JSON, when it reads as a timeline (as
/// serde reads one): lanes and events, where present, arrays of lanes and
/// of events.
pub open spec fn timeline_names(j: Json) -> Option<Seq<Seq<char>>> {
    match timeline_parts(j) {
        None => None,
        Some(p) => if !lanes_ok(p.0) {
            None
        } else {
            match timeline_events(p.1) {
                Some(a) => Some(Seq::new(a.len(), |i: int| event_name(a[i]))),
                None => None,
            }
        },
    }
}

fn str_field_exec(j: &JsonValue, k: &str) -> (b: bool)
    ensures
        b == str_field(j@, k@),
{
    j.get_str(k).is_some()
}

fn opt_str_field_exec(j: &JsonValue, k: &str) -> (b: bool)
    ensures
        b == opt_str_field(j@, k@),
{
    match j.get(k) {
        None => true,
        Some(JsonValue::Null) => true,
        Some(JsonValue::Str(_)) => true,
        _ => false,
    }
}

fn i64_field_exec(j: &JsonValue, k: &str) -> (b: bool)
    ensures
        b == i64_field(j@, k@),
{
    match j.get(k) {
        Some(v) => v.as_i64().is_some(),
        None => false,
    }
}

fn opt_i64_field_exec(j: &JsonValue, k: &str) -> (b: bool)
    ensures
        b == opt_i64_field(j@, k@),
{
    match j.get(k) {
        None => true,
        Some(JsonValue::Null) => true,
        Some(v) => v.as_i64().is_some(),
    }
}

fn opt_num_field_exec(j: &JsonValue, k: &str) -> (b: bool)
    ensures
        b == opt_num_field(j@, k@),
{
    match j.get(k) {
        None => true,
        Some(JsonValue::Null) => true,
        Some(JsonValue::Number(_)) => true,
        _ => false,
    }
}

fn opt_bool_field_exec(j: &JsonValue, k: &str) -> (b: bool)
    ensures
        b == opt_bool_field(j@, k@),
{
    match j.get(k) {
        None => true,
        Some(JsonValue::Bool(_)) => true,
        _ => false,
    }
}

fn is_object(j: &JsonValue) -> (b: bool)
    ensures
        b == j@ is Object,
{
    match j {
        JsonValue::Object(_) => true,
        _ => false,
    }
}

fn is_str(x: &JsonValue) -> (b: bool)
    ensures
        b == x@ is Str,
{
    match x {
        JsonValue::Str(_) => true,
        _ => false,
    }
}

fn is_null(x: &JsonValue) -> (b: bool)
    ensures
        b == x@ is Null,
{
    match x {
        JsonValue::Null => true,
        _ => false,
    }
}

fn opt_str_elem_exec(x: &JsonValue) -> (b: bool)
    ensures
        b == opt_str_elem(x@),
{
    is_null(x) || is_str(x)
}

fn lane_ok_exec(l: &JsonValue) -> (b: bool)
    ensures
        b == lane_ok(l@),
{
    match l {
        JsonValue::Array(x) => {
            proof {
                crate::prosemirror::from_markdown::lemma_array_view(*x);
            }
            x.len() == 4 && is_str(&x[0]) && is_str(&x[1]) && is_str(&x[2])
        },
        _ => is_object(l) && str_field_exec(l, "id") && str_field_exec(l, "name") && str_field_exec(
            l,
            "pos",
        ) && l.get("size").is_some(),
    }
}

fn event_ok_exec(e: &JsonValue) -> (b: bool)
    ensures
        b == event_ok(e@),
{
    match e {
        JsonValue::Array(x) => {
            proof {
                crate::prosemirror::from_markdown::lemma_array_view(*x);
            }
            x.len() == 15 && is_str(&x[0]) && is_str(&x[1]) && is_str(&x[2]) && is_str(&x[3])
                && x[5].as_i64().is_some() && (is_null(&x[6]) || x[6].as_i64().is_some()) && is_str(
                &x[7],
            ) && opt_str_elem_exec(&x[8]) && opt_str_elem_exec(&x[9]) && opt_str_elem_exec(&x[10])
                && opt_str_elem_exec(&x[11]) && (is_null(&x[12]) || match &x[12] {
                JsonValue::Number(_) => true,
                _ => false,
            }) && match &x[13] {
                JsonValue::Bool(_) => true,
                _ => false,
            }
        },
        _ => is_object(e) && str_field_exec(e, "id") && str_field_exec(e, "laneId") && str_field_exec(
            e,
            "type",
        ) && str_field_exec(e, "pos") && i64_field_exec(e, "start") && opt_i64_field_exec(e, "end")
            && str_field_exec(e, "name") && opt_str_field_exec(e, "iconGlyph") && opt_str_field_exec(
            e,
            "color",
        ) && opt_str_field_exec(e, "imageUrl") && opt_str_field_exec(e, "imageFit")
            && opt_num_field_exec(e, "opacity") && opt_bool_field_exec(e, "isSynced"),
    }
}

/// The name of an event that reads.
fn event_name_exec(e: &JsonValue) -> (r: String)
    requires
        event_ok(e@),
    ensures
        r@ == event_name(e@),
{
    match e {
        JsonValue::Array(x) => {
            proof {
                crate::prosemirror::from_markdown::lemma_array_view(*x);
            }
            match &x[7] {
                JsonValue::Str(n) => n.clone(),
                _ => String::new(),
            }
        },
        _ => e.get_str("name").unwrap().clone(),
    }
}

/// The lanes and events of a timeline's JSON, each where present.
fn timeline_parts_exec(j: &JsonValue) -> (r: Option<(Option<&JsonValue>, Option<&JsonValue>)>)
    ensures
        match timeline_parts(j@) {
            None => r is None,
            Some(p) => r matches Some(q) && crate::prosemirror::to_markdown::ref_view(q.0) == p.0
                && crate::prosemirror::to_markdown::ref_view(q.1) == p.1,
        },
{
    match j {
        JsonValue::Object(_) => Some((j.get("lanes"), j.get("events"))),
        JsonValue::Array(a) => {
            proof {
                crate::prosemirror::from_markdown::lemma_array_view(*a);
            }
            if a.len() > 2 {
                return None;
            }
            let l = if a.len() > 0 {
                Some(&a[0])
            } else {
                None
            };
            let ev = if a.len() > 1 {
                Some(&a[1])
            } else {
                None
            };
            Some((l, ev))
        },
        _ => None,
    }
}

/// The event names of a timeline document's content, if it reads as one.
pub fn timeline_event_names(content: &JsonValue) -> (r: Option<Vec<String>>)
    ensures
        match timeline_names(content@) {
            None => r is None,
            Some(ns) => r matches Some(v) && crate::text::str_views(v@) == ns,
        },
{
    let (lanes, events) = match timeline_parts_exec(content) {
        Some(p) => p,
        None => {
            return None;
        },
    };
    let ghost lv = crate::prosemirror::to_markdown::ref_view(lanes);
    let ghost evv = crate::prosemirror::to_markdown::ref_view(events);
    assert(timeline_parts(content@) == Some((lv, evv)));
    match lanes {
        None => {},
        Some(JsonValue::Array(a)) => {
            proof {
                crate::prosemirror::from_markdown::lemma_array_view(*a);
            }
            let ghost av = crate::prosemirror::from_markdown::jsons(a@);
            let mut i: usize = 0;
            while i < a.len()
                invariant
                    i <= a.len(),
                    av == crate::prosemirror::from_markdown::jsons(a@),
                    forall|k: int| 0 <= k < i ==> lane_ok(#[trigger] av[k]),
                    lv == Some(Json::Array(av)),
                    timeline_parts(content@) == Some((lv, evv)),
                decreases a.len() - i,
            {
                assert(av[i as int] == a@[i as int]@);
                if !lane_ok_exec(&a[i]) {
                    assert(!lane_ok(av[i as int]));
                    assert(!all_lanes_ok(av));
                    return None;
                }
                i = i + 1;
            }
        },
        Some(_) => {
            return None;
        },
    }
    assert(lanes_ok(lv));
    let mut names: Vec<String> = Vec::new();
    match events {
        None => {
            assert(crate::text::str_views(names@) =~= Seq::<Seq<char>>::empty());
        },
        Some(JsonValue::Array(a)) => {
            proof {
                crate::prosemirror::from_markdown::lemma_array_view(*a);
            }
            let ghost av = crate::prosemirror::from_markdown::jsons(a@);
            let mut i: usize = 0;
            while i < a.len()
                invariant
                    i <= a.len(),
                    av == crate::prosemirror::from_markdown::jsons(a@),
                    forall|k: int| 0 <= k < i ==> event_ok(#[trigger] av[k]),
                    evv == Some(Json::Array(av)),
                    timeline_parts(content@) == Some((lv, evv)),
                    lanes_ok(lv),
                decreases a.len() - i,
            {
                assert(av[i as int] == a@[i as int]@);
                if !event_ok_exec(&a[i]) {
                    assert(!event_ok(av[i as int]));
                    assert(!all_events_ok(av));
                    return None;
                }
                i = i + 1;
            }
            let mut i: usize = 0;
            while i < a.len()
                invariant
                    i <= a.len(),
                    av == crate::prosemirror::from_markdown::jsons(a@),
                    forall|k: int| 0 <= k < a.len() ==> event_ok(#[trigger] av[k]),
                    names.len() == i,
                    forall|k: int| 0 <= k < i ==> (#[trigger] names@[k])@ == event_name(av[k]),
                decreases a.len() - i,
            {
                assert(av[i as int] == a@[i as int]@);
                assert(event_ok(av[i as int]));
                let n = event_name_exec(&a[i]);
                names.push(n);
                i = i + 1;
            }
            assert(crate::text::str_views(names@) =~= Seq::new(av.len(), |i: int| event_name(av[i])));
        },
        Some(_) => {
            return None;
        },
    }
    Some(names)
}

// ---------------------------------------------------------------------------
// Search
// ---------------------------------------------------------------------------

/// A hit: resource id and name, document name, snippet, and whether the
/// document is hidden.
pub open spec fn hit(r: Resource, d: Document, snippet: Seq<char>) -> (Seq<char>, Seq<char>, Seq<char>, Seq<char>, bool) {
    (r.id@, r.name@, d.name@, snippet, d.is_hidden)
}

pub open spec fn result_model(x: SearchResult) -> (Seq<char>, Seq<char>, Seq<char>, Seq<char>, bool) {
    (x.resource_id@, x.resource_name@, x.document_name@, x.snippet@, x.is_hidden)
}

pub open spec fn result_models(v: Seq<SearchResult>) -> Seq<(Seq<char>, Seq<char>, Seq<char>, Seq<char>, bool)> {
    Seq::new(v.len(), |i: int| result_model(v[i]))
}

pub open spec fn event_hits(r: Resource, d: Document, names: Seq<Seq<char>>, ql: Seq<char>, k: int) -> Seq<
    (Seq<char>, Seq<char>, Seq<char>, Seq<char>, bool),
>
    decreases k,
{
    if k <= 0 || k > names.len() {
        seq![]
    } else {
        let n = names[k - 1];
        event_hits(r, d, names, ql, k - 1) + if crate::text::contains_seq(lowercase(n), ql) {
            seq![hit(r, d, "Timeline event: "@ + n)]
        } else {
            seq![]
        }
    }
}

proof fn lemma_event_hits(
    r: Resource,
    d: Document,
    ns: Seq<Seq<char>>,
    ql: Seq<char>,
    k: int,
)
    requires
        0 <= k <= ns.len(),
    ensures
        forall|i: int|
            0 <= i < k && crate::text::contains_seq(lowercase(ns[i]), ql) ==> #[trigger] event_hits(
                r,
                d,
                ns,
                ql,
                k,
            ).contains(hit(r, d, "Timeline event: "@ + ns[i])),
        forall|x|
            #[trigger] event_hits(r, d, ns, ql, k).contains(x) ==> exists|i: int|
                0 <= i < k && crate::text::contains_seq(lowercase(ns[i]), ql) && x == hit(
                    r,
                    d,
                    "Timeline event: "@ + ns[i],
                ),
    decreases k,
{
    if k > 0 {
        lemma_event_hits(r, d, ns, ql, k - 1);
        let prev = event_hits(r, d, ns, ql, k - 1);
        let n = ns[k - 1];
        let add = if crate::text::contains_seq(lowercase(n), ql) {
            seq![hit(r, d, "Timeline event: "@ + n)]
        } else {
            seq![]
        };
        let all = event_hits(r, d, ns, ql, k);
        assert(all == prev + add);
        assert forall|i: int|
            0 <= i < k && crate::text::contains_seq(lowercase(ns[i]), ql) implies #[trigger] event_hits(
            r,
            d,
            ns,
            ql,
            k,
        ).contains(hit(r, d, "Timeline event: "@ + ns[i])) by {
            if i < k - 1 {
                assert(event_hits(r, d, ns, ql, k - 1).contains(hit(r, d, "Timeline event: "@ + ns[i])));
                let w = choose|w: int| 0 <= w < prev.len() && prev[w] == hit(r, d, "Timeline event: "@ + ns[i]);
                assert(all[w] == prev[w]);
            } else {
                assert(all[prev.len() as int] == add[0]);
            }
        }
        assert forall|x| #[trigger] event_hits(r, d, ns, ql, k).contains(x) implies exists|i: int|
            0 <= i < k && crate::text::contains_seq(lowercase(ns[i]), ql) && x == hit(
                r,
                d,
                "Timeline event: "@ + ns[i],
            ) by {
            let w = choose|w: int| 0 <= w < all.len() && all[w] == x;
            if w < prev.len() {
                assert(prev[w] == x);
                assert(prev.contains(x));
            } else {
                assert(add[w - prev.len()] == x);
            }
        }
    }
}

/// Searching a timeline ignores case: an event is a hit, reported as
/// `Timeline event: <name>`, exactly when its lowercased name holds the
/// lowercased query somewhere.
pub proof fn law_timeline_search_ignores_case(r: Resource, d: Document, q: Seq<char>, ns: Seq<Seq<char>>)
    requires
        d.doc_type@ == "time"@,
        d.content is Some,
        timeline_names(d.content->Some_0@) == Some(ns),
    ensures
        forall|i: int|
            0 <= i < ns.len() && (exists|j: int|
                #[trigger] crate::text::occurs_at(lowercase(ns[i]), lowercase(q), j)) ==> doc_hits(
                r,
                d,
                lowercase(q),
            ).contains(hit(r, d, "Timeline event: "@ + ns[i])),
        forall|x|
            #[trigger] doc_hits(r, d, lowercase(q)).contains(x) ==> exists|i: int|
                0 <= i < ns.len() && (exists|j: int|
                    #[trigger] crate::text::occurs_at(lowercase(ns[i]), lowercase(q), j)) && x == hit(
                    r,
                    d,
                    "Timeline event: "@ + ns[i],
                ),
{
    reveal_strlit("time");
    reveal_strlit("page");
    assert("time"@[0] != "page"@[0]);
    assert(doc_hits(r, d, lowercase(q)) == event_hits(r, d, ns, lowercase(q), ns.len() as int));
    lemma_event_hits(r, d, ns, lowercase(q), ns.len() as int);
    assert forall|i: int| 0 <= i < ns.len() implies crate::text::contains_seq(lowercase(ns[i]), lowercase(q))
        <==> exists|j: int| #[trigger] crate::text::occurs_at(lowercase(ns[i]), lowercase(q), j) by {
        crate::text::lemma_contains_occurs(lowercase(ns[i]), lowercase(q));
    }
}

pub open spec fn board_hits(
    r: Resource,
    d: Document,
    recs: Seq<(Seq<char>, Json)>,
    ql: Seq<char>,
    k: int,
) -> Seq<(Seq<char>, Seq<char>, Seq<char>, Seq<char>, bool)>
    decreases k,
{
    if k <= 0 || k > recs.len() {
        seq![]
    } else {
        let t = board_record_text(recs[k - 1].1);
        board_hits(r, d, recs, ql, k - 1) + if t.len() > 0 && crate::text::contains_seq(lowercase(t), ql) {
            seq![hit(r, d, "Board shape: "@ + t)]
        } else {
            seq![]
        }
    }
}

proof fn lemma_board_hits(
    r: Resource,
    d: Document,
    recs: Seq<(Seq<char>, Json)>,
    ql: Seq<char>,
    k: int,
)
    requires
        0 <= k <= recs.len(),
    ensures
        forall|i: int|
            0 <= i < k && board_record_text(recs[i].1).len() > 0 && crate::text::contains_seq(
                lowercase(board_record_text(recs[i].1)),
                ql,
            ) ==> #[trigger] board_hits(r, d, recs, ql, k).contains(
                hit(r, d, "Board shape: "@ + board_record_text(recs[i].1)),
            ),
        forall|x|
            #[trigger] board_hits(r, d, recs, ql, k).contains(x) ==> exists|i: int|
                0 <= i < k && board_record_text(recs[i].1).len() > 0 && crate::text::contains_seq(
                    lowercase(board_record_text(recs[i].1)),
                    ql,
                ) && x == hit(r, d, "Board shape: "@ + board_record_text(recs[i].1)),
    decreases k,
{
    if k > 0 {
        lemma_board_hits(r, d, recs, ql, k - 1);
        let prev = board_hits(r, d, recs, ql, k - 1);
        let t = board_record_text(recs[k - 1].1);
        let add = if t.len() > 0 && crate::text::contains_seq(lowercase(t), ql) {
            seq![hit(r, d, "Board shape: "@ + t)]
        } else {
            seq![]
        };
        let all = board_hits(r, d, recs, ql, k);
        assert(all == prev + add);
        assert forall|i: int|
            0 <= i < k && board_record_text(recs[i].1).len() > 0 && crate::text::contains_seq(
                lowercase(board_record_text(recs[i].1)),
                ql,
            ) implies #[trigger] board_hits(r, d, recs, ql, k).contains(
            hit(r, d, "Board shape: "@ + board_record_text(recs[i].1)),
        ) by {
            if i < k - 1 {
                assert(board_hits(r, d, recs, ql, k - 1).contains(
                    hit(r, d, "Board shape: "@ + board_record_text(recs[i].1)),
                ));
                let w = choose|w: int|
                    0 <= w < prev.len() && prev[w] == hit(r, d, "Board shape: "@ + board_record_text(recs[i].1));
                assert(all[w] == prev[w]);
            } else {
                assert(all[prev.len() as int] == add[0]);
            }
        }
        assert forall|x| #[trigger] board_hits(r, d, recs, ql, k).contains(x) implies exists|i: int|
            0 <= i < k && board_record_text(recs[i].1).len() > 0 && crate::text::contains_seq(
                lowercase(board_record_text(recs[i].1)),
                ql,
            ) && x == hit(r, d, "Board shape: "@ + board_record_text(recs[i].1)) by {
            let w = choose|w: int| 0 <= w < all.len() && all[w] == x;
            if w < prev.len() {
                assert(prev[w] == x);
                assert(prev.contains(x));
            } else {
                assert(add[w - prev.len()] == x);
            }
        }
    }
}

/// Searching a board ignores case: a shape with text is a hit, reported as
/// `Board shape: <text>`, exactly when its lowercased text holds the
/// lowercased query somewhere.
pub proof fn law_board_search_ignores_case(r: Resource, d: Document, q: Seq<char>)
    requires
        d.doc_type@ == "board"@,
        d.content is Some,
        crate::lk::builder::board_shape_ok(d.content->Some_0@),
    ensures
        ({
            let recs = crate::lk::builder::board_json_records(d.content->Some_0@);
            &&& forall|i: int|
                0 <= i < recs.len() && board_record_text(recs[i].1).len() > 0 && (exists|j: int|
                    #[trigger] crate::text::occurs_at(lowercase(board_record_text(recs[i].1)), lowercase(q), j))
                    ==> doc_hits(r, d, lowercase(q)).contains(
                    hit(r, d, "Board shape: "@ + board_record_text(recs[i].1)),
                )
            &&& forall|x|
                #[trigger] doc_hits(r, d, lowercase(q)).contains(x) ==> exists|i: int|
                    0 <= i < recs.len() && board_record_text(recs[i].1).len() > 0 && (exists|j: int|
                        #[trigger] crate::text::occurs_at(
                            lowercase(board_record_text(recs[i].1)),
                            lowercase(q),
                            j,
                        )) && x == hit(r, d, "Board shape: "@ + board_record_text(recs[i].1))
        }),
{
    reveal_strlit("board");
    reveal_strlit("time");
    reveal_strlit("page");
    assert("board"@.len() == 5 && "time"@.len() == 4 && "page"@.len() == 4);
    let recs = crate::lk::builder::board_json_records(d.content->Some_0@);
    assert(doc_hits(r, d, lowercase(q)) == board_hits(r, d, recs, lowercase(q), recs.len() as int));
    lemma_board_hits(r, d, recs, lowercase(q), recs.len() as int);
    assert forall|i: int| 0 <= i < recs.len() implies crate::text::contains_seq(
        lowercase(board_record_text(recs[i].1)),
        lowercase(q),
    ) <==> exists|j: int| #[trigger] crate::text::occurs_at(lowercase(board_record_text(recs[i].1)), lowercase(q), j) by {
        crate::text::lemma_contains_occurs(lowercase(board_record_text(recs[i].1)), lowercase(q));
    }
}

/// The hits in one document: a page by its text, a timeline by its event
/// names, a board by the texts of its shapes.
pub open spec fn doc_hits(r: Resource, d: Document, ql: Seq<char>) -> Seq<
    (Seq<char>, Seq<char>, Seq<char>, Seq<char>, bool),
> {
    match d.content {
        None => seq![],
        Some(c) => if d.doc_type@ == "page"@ {
            match snippet_spec(pm_text(c@), ql) {
                Some(sn) => seq![hit(r, d, sn)],
                None => seq![],
            }
        } else if d.doc_type@ == "time"@ {
            match timeline_names(c@) {
                Some(ns) => event_hits(r, d, ns, ql, ns.len() as int),
                None => seq![],
            }
        } else if d.doc_type@ == "board"@ {
            if crate::lk::builder::board_shape_ok(c@) {
                let recs = crate::lk::builder::board_json_records(c@);
                board_hits(r, d, recs, ql, recs.len() as int)
            } else {
                seq![]
            }
        } else {
            seq![]
        },
    }
}

pub open spec fn res_hits(r: Resource, ql: Seq<char>, k: int) -> Seq<
    (Seq<char>, Seq<char>, Seq<char>, Seq<char>, bool),
>
    decreases k,
{
    if k <= 0 || k > r.documents.len() {
        seq![]
    } else {
        res_hits(r, ql, k - 1) + doc_hits(r, r.documents@[k - 1], ql)
    }
}

pub open spec fn all_hits(rs: Seq<Resource>, ql: Seq<char>, k: int) -> Seq<
    (Seq<char>, Seq<char>, Seq<char>, Seq<char>, bool),
>
    decreases k,
{
    if k <= 0 || k > rs.len() {
        seq![]
    } else {
        all_hits(rs, ql, k - 1) + res_hits(rs[k - 1], ql, rs[k - 1].documents.len() as int)
    }
}

fn push_hit(out: &mut Vec<SearchResult>, r: &Resource, d: &Document, snippet: String)
    ensures
        result_models(final(out)@) == result_models(old(out)@).push(hit(*r, *d, snippet@)),
{
    let ghost o0 = out@;
    out.push(
        SearchResult {
            resource_id: r.id.clone(),
            resource_name: r.name.clone(),
            document_name: d.name.clone(),
            snippet,
            is_hidden: d.is_hidden,
        },
    );
    assert(result_models(out@) =~= result_models(o0).push(hit(*r, *d, snippet@)));
}

fn doc_hits_exec(out: &mut Vec<SearchResult>, r: &Resource, d: &Document, ql: &str)
    ensures
        result_models(final(out)@) == result_models(old(out)@) + doc_hits(*r, *d, ql@),
{
    let ghost o0 = result_models(out@);
    let c = match &d.content {
        None => {
            assert(o0 + doc_hits(*r, *d, ql@) =~= o0);
            return;
        },
        Some(c) => c,
    };
    if str_eq(d.doc_type.as_str(), "page") {
        let text = extract_text_from_prosemirror(c);
        match find_snippet(text.as_str(), ql) {
            Some(sn) => push_hit(out, r, d, sn),
            None => {},
        }
        assert(result_models(out@) =~= o0 + doc_hits(*r, *d, ql@));
    } else if str_eq(d.doc_type.as_str(), "time") {
        match timeline_event_names(c) {
            Some(names) => {
                let ghost ns = crate::text::str_views(names@);
                let mut i: usize = 0;
                assert(o0 + event_hits(*r, *d, ns, ql@, 0) =~= o0);
                while i < names.len()
                    invariant
                        i <= names.len(),
                        ns == crate::text::str_views(names@),
                        result_models(out@) == o0 + event_hits(*r, *d, ns, ql@, i as int),
                    decreases names.len() - i,
                {
                    assert(ns[i as int] == names@[i as int]@);
                    let ln = to_lowercase(names[i].as_str());
                    if crate::text::contains_str(ln.as_str(), ql) {
                        push_hit(out, r, d, crate::text::cat("Timeline event: ", names[i].as_str()));
                    }
                    assert(result_models(out@) =~= o0 + event_hits(*r, *d, ns, ql@, i + 1));
                    i = i + 1;
                }
            },
            None => {
                assert(o0 + doc_hits(*r, *d, ql@) =~= o0);
            },
        }
    } else if str_eq(d.doc_type.as_str(), "board") {
        match crate::lk::builder::board_from_json(c) {
            Ok(board) => {
                let ghost recs = crate::lk::builder::board_json_records(c@);
                let mut i: usize = 0;
                assert(o0 + board_hits(*r, *d, recs, ql@, 0) =~= o0);
                while i < board.shapes_v2.len()
                    invariant
                        i <= board.shapes_v2.len(),
                        crate::lk::builder::records_model(board.shapes_v2@) == recs,
                        result_models(out@) == o0 + board_hits(*r, *d, recs, ql@, i as int),
                    decreases board.shapes_v2.len() - i,
                {
                    assert(recs[i as int] == (board.shapes_v2@[i as int].key@, board.shapes_v2@[i as int].val@));
                    let t = extract_text_from_board_record(&board.shapes_v2[i]);
                    if !crate::text::str_is_empty(t.as_str()) {
                        let lt = to_lowercase(t.as_str());
                        if crate::text::contains_str(lt.as_str(), ql) {
                            push_hit(out, r, d, crate::text::cat("Board shape: ", t.as_str()));
                        }
                    }
                    assert(result_models(out@) =~= o0 + board_hits(*r, *d, recs, ql@, i + 1));
                    i = i + 1;
                }
            },
            Err(_) => {
                assert(o0 + doc_hits(*r, *d, ql@) =~= o0);
            },
        }
    } else {
        assert(o0 + doc_hits(*r, *d, ql@) =~= o0);
    }
}

pub open spec fn search_limit(limit: Option<usize>) -> nat {
    match limit {
        Some(l) => l as nat,
        None => 20,
    }
}

impl WorldStore {
    /// Searches the pages, timelines and boards of a world for a text,
    /// without case; at most `limit` hits (20 by default), in document order.
    pub fn search_content(&self, world: &Option<String>, query: &str, limit: Option<usize>) -> (r:
        Result<Vec<SearchResult>, LkError>)
        ensures
            query@.len() == 0 ==> (r matches Err(LkError::InvalidInput(s)) && s@
                == "query cannot be empty"@),
            query@.len() > 0 ==> ({
                match resolve_spec_idx(self.worlds@, opt_str(*world)) {
                    None => r is Err && resolves_to(self.worlds@, opt_str(*world), Err(r->Err_0)),
                    Some(k) => {
                        let rs = self.worlds@[k].1.resources@;
                        let hits = all_hits(rs, lowercase(query@), rs.len() as int);
                        r matches Ok(v) && result_models(v@) == if hits.len() <= search_limit(limit) {
                            hits
                        } else {
                            hits.take(search_limit(limit) as int)
                        }
                    },
                }
            }),
    {
        if crate::text::str_is_empty(query) {
            return Err(LkError::InvalidInput(copy_str("query cannot be empty")));
        }
        proof {
            if let Some(n) = world {
                lemma_key_index(world_names(self.worlds@), n@, 0);
            }
        }
        let k = match self.resolve_world(world) {
            Ok(k) => k,
            Err(e) => {
                return Err(e);
            },
        };
        assert(resolve_spec_idx(self.worlds@, opt_str(*world)) == Some(k as int));
        let rs = &self.worlds[k].1.resources;
        let ql = to_lowercase(query);
        let lim: usize = match limit {
            Some(l) => l,
            None => 20,
        };
        let mut out: Vec<SearchResult> = Vec::new();
        let mut i: usize = 0;
        assert(result_models(out@) =~= all_hits(rs@, ql@, 0));
        while i < rs.len()
            invariant
                i <= rs.len(),
                result_models(out@) == all_hits(rs@, ql@, i as int),
            decreases rs.len() - i,
        {
            let r = &rs[i];
            let ghost before = result_models(out@);
            let mut j: usize = 0;
            assert(before + res_hits(*r, ql@, 0) =~= before);
            while j < r.documents.len()
                invariant
                    j <= r.documents.len(),
                    result_models(out@) == before + res_hits(*r, ql@, j as int),
                decreases r.documents.len() - j,
            {
                doc_hits_exec(&mut out, r, &r.documents[j], ql.as_str());
                assert(result_models(out@) =~= before + res_hits(*r, ql@, j + 1));
                j = j + 1;
            }
            i = i + 1;
        }
        let ghost hits = result_models(out@);
        if out.len() > lim {
            out.truncate(lim);
            assert(result_models(out@) =~= hits.take(lim as int));
        }
        Ok(out)
    }
}

// ---------------------------------------------------------------------------
// The resource tree
// ---------------------------------------------------------------------------

/// Model of a resource tree node.
pub struct TreeModel {
    pub id: Seq<char>,
    pub name: Seq<char>,
    pub children: Seq<TreeModel>,
}

pub open spec fn empty_tree_model() -> TreeModel {
    TreeModel { id: seq![], name: seq![], children: seq![] }
}

impl View for ResourceTree {
    type V = TreeModel;

    open spec fn view(&self) -> TreeModel
        decreases self,
    {
        TreeModel {
            id: self.id@,
            name: self.name@,
            children: Seq::new(
                self.children.len() as nat,
                |i: int|
                    if 0 <= i < self.children.len() {
                        self.children[i]@
                    } else {
                        empty_tree_model()
                    },
            ),
        }
    }
}

pub open spec fn tree_views(v: Seq<ResourceTree>) -> Seq<TreeModel> {
    Seq::new(v.len(), |i: int| v[i]@)
}

proof fn lemma_tree_view(t: ResourceTree)
    ensures
        t@.id == t.id@,
        t@.name == t.name@,
        t@.children == tree_views(t.children@),
{
    assert(t@.children =~= tree_views(t.children@));
}

/// Where a stable sort by position puts resource `x` among the first `k`
/// of `s`.
pub open spec fn pos_ins(s: Seq<Resource>, x: Resource, k: int) -> int
    decreases k,
{
    if k > 0 && k <= s.len() && crate::text::seq_lt(x.pos@, s[k - 1].pos@) {
        pos_ins(s, x, k - 1)
    } else {
        k
    }
}

/// The children of `p` among the first `k` resources, sorted by position,
/// those of equal position in their order.
pub open spec fn children_of(rs: Seq<Resource>, p: Option<Seq<char>>, k: int) -> Seq<Resource>
    decreases k,
{
    if k <= 0 || k > rs.len() {
        seq![]
    } else {
        let prev = children_of(rs, p, k - 1);
        let r = rs[k - 1];
        if opt_str(r.parent_id) == p {
            let q = pos_ins(prev, r, prev.len() as int);
            prev.take(q).push(r) + prev.skip(q)
        } else {
            prev
        }
    }
}

pub open spec fn kids_of_parent(rs: Seq<Resource>, p: Option<Seq<char>>) -> Seq<Resource> {
    children_of(rs, p, rs.len() as int)
}

/// The trees below `p`, built `fuel` levels deep.
pub open spec fn build_tree(rs: Seq<Resource>, p: Option<Seq<char>>, fuel: nat) -> Seq<TreeModel>
    decreases fuel, 1int, 0int,
{
    if fuel == 0 {
        seq![]
    } else {
        let cs = kids_of_parent(rs, p);
        build_kids(rs, cs, cs.len() as int, fuel)
    }
}

pub open spec fn build_kids(rs: Seq<Resource>, cs: Seq<Resource>, k: int, fuel: nat) -> Seq<TreeModel>
    decreases fuel, 0int, k,
{
    if fuel == 0 || k <= 0 || k > cs.len() {
        seq![]
    } else {
        build_kids(rs, cs, k - 1, fuel).push(
            TreeModel {
                id: cs[k - 1].id@,
                name: cs[k - 1].name@,
                children: build_tree(rs, Some(cs[k - 1].id@), (fuel - 1) as nat),
            },
        )
    }
}

/// The tree below `p` ends within `fuel` levels: no chain of children from
/// `p` runs longer, so the tree is finite.
pub open spec fn tree_ends(rs: Seq<Resource>, p: Option<Seq<char>>, fuel: nat) -> bool
    decreases fuel, 1int, 0int,
{
    fuel > 0 && {
        let cs = kids_of_parent(rs, p);
        kids_end(rs, cs, cs.len() as int, fuel)
    }
}

pub open spec fn kids_end(rs: Seq<Resource>, cs: Seq<Resource>, k: int, fuel: nat) -> bool
    decreases fuel, 0int, k,
{
    if fuel == 0 || k <= 0 || k > cs.len() {
        true
    } else {
        kids_end(rs, cs, k - 1, fuel) && (cs.len() == 0 || tree_ends(rs, Some(cs[k - 1].id@), (fuel - 1) as nat))
    }
}

proof fn lemma_kids_end_prefix(rs: Seq<Resource>, cs: Seq<Resource>, k: int, j: int, fuel: nat)
    requires
        kids_end(rs, cs, k, fuel),
        0 < j <= k <= cs.len(),
        fuel > 0,
    ensures
        tree_ends(rs, Some(cs[j - 1].id@), (fuel - 1) as nat),
    decreases k,
{
    if j < k {
        lemma_kids_end_prefix(rs, cs, k - 1, j, fuel);
    }
}

fn children_exec(rs: &Vec<Resource>, p: &Option<String>) -> (r: Vec<usize>)
    ensures
        r.len() == kids_of_parent(rs@, opt_str(*p)).len(),
        forall|i: int| 0 <= i < r.len() ==> (#[trigger] r@[i]) < rs.len() && rs@[r@[i] as int]
            == kids_of_parent(rs@, opt_str(*p))[i],
{
    let ghost pp = opt_str(*p);
    let mut out: Vec<usize> = Vec::new();
    let mut k: usize = 0;
    while k < rs.len()
        invariant
            k <= rs.len(),
            pp == opt_str(*p),
            out.len() == children_of(rs@, pp, k as int).len(),
            forall|i: int| 0 <= i < out.len() ==> (#[trigger] out@[i]) < rs.len() && rs@[out@[i] as int]
                == children_of(rs@, pp, k as int)[i],
        decreases rs.len() - k,
    {
        let matches = match (&rs[k].parent_id, p) {
            (Some(a), Some(b)) => str_eq(a.as_str(), b.as_str()),
            (None, None) => true,
            _ => false,
        };
        if matches {
            let ghost prev = children_of(rs@, pp, k as int);
            let mut q = out.len();
            while q > 0 && crate::text::str_lt(rs[k].pos.as_str(), rs[out[q - 1]].pos.as_str())
                invariant
                    q <= out.len(),
                    out.len() == prev.len(),
                    k < rs.len(),
                    forall|i: int| 0 <= i < out.len() ==> (#[trigger] out@[i]) < rs.len() && rs@[out@[i] as int]
                        == prev[i],
                    pos_ins(prev, rs@[k as int], prev.len() as int) == pos_ins(prev, rs@[k as int], q as int),
                decreases q,
            {
                assert(rs@[out@[q - 1] as int] == prev[q - 1]);
                q = q - 1;
            }
            proof {
                if q > 0 {
                    assert(rs@[out@[q - 1] as int] == prev[q - 1]);
                }
                assert(pos_ins(prev, rs@[k as int], q as int) == q);
            }
            let ghost o0 = out@;
            out.insert(q, k);
            proof {
                let nw = children_of(rs@, pp, k + 1);
                assert(nw == prev.take(q as int).push(rs@[k as int]) + prev.skip(q as int));
                assert forall|i: int| 0 <= i < out.len() implies (#[trigger] out@[i]) < rs.len()
                    && rs@[out@[i] as int] == nw[i] by {
                    if i < q {
                        assert(out@[i] == o0[i]);
                    } else if i > q {
                        assert(out@[i] == o0[i - 1]);
                    }
                }
            }
        }
        k = k + 1;
    }
    out
}

fn build_tree_exec(rs: &Vec<Resource>, p: &Option<String>, fuel: u128) -> (r: Vec<ResourceTree>)
    requires
        tree_ends(rs@, opt_str(*p), fuel as nat),
    ensures
        tree_views(r@) == build_tree(rs@, opt_str(*p), fuel as nat),
    decreases fuel,
{
    let ghost cs = kids_of_parent(rs@, opt_str(*p));
    let idx = children_exec(rs, p);
    let mut out: Vec<ResourceTree> = Vec::new();
    let mut i: usize = 0;
    assert(tree_views(out@) =~= build_kids(rs@, cs, 0, fuel as nat));
    while i < idx.len()
        invariant
            i <= idx.len(),
            fuel > 0,
            cs == kids_of_parent(rs@, opt_str(*p)),
            idx.len() == cs.len(),
            forall|k: int| 0 <= k < idx.len() ==> (#[trigger] idx@[k]) < rs.len() && rs@[idx@[k] as int] == cs[k],
            kids_end(rs@, cs, cs.len() as int, fuel as nat),
            tree_views(out@) == build_kids(rs@, cs, i as int, fuel as nat),
        decreases idx.len() - i,
    {
        let r = &rs[idx[i]];
        assert(*r == cs[i as int]);
        proof {
            lemma_kids_end_prefix(rs@, cs, cs.len() as int, i + 1, fuel as nat);
        }
        let child_id = Some(r.id.clone());
        let children = build_tree_exec(rs, &child_id, fuel - 1);
        let node = ResourceTree { id: r.id.clone(), name: r.name.clone(), children };
        proof {
            lemma_tree_view(node);
        }
        let ghost o0 = out@;
        out.push(node);
        assert(tree_views(out@) =~= tree_views(o0).push(node@));
        i = i + 1;
    }
    out
}

impl WorldStore {
    /// Whether the tree below `root_id` (or below the top) is finite, so
    /// that it can be listed.
    pub open spec fn tree_is_finite(&self, k: int, root_id: Option<Seq<char>>) -> bool {
        let rs = self.worlds@[k].1.resources@;
        tree_ends(rs, root_id, (rs.len() + 1) as nat)
    }

    /// The resources of a world as a tree: below `root_id` (which must
    /// exist), or from the top; children in order of position.
    pub fn get_resource_tree(&self, world: &Option<String>, root_id: &Option<String>) -> (r: Result<
        Vec<ResourceTree>,
        LkError,
    >)
        requires
            resolve_spec_idx(self.worlds@, opt_str(*world)) matches Some(k) ==> self.tree_is_finite(
                k,
                opt_str(*root_id),
            ),
        ensures
            ({
                match resolve_spec_idx(self.worlds@, opt_str(*world)) {
                    None => r is Err && resolves_to(self.worlds@, opt_str(*world), Err(r->Err_0)),
                    Some(k) => {
                        let rs = self.worlds@[k].1.resources@;
                        match opt_str(*root_id) {
                            Some(id) => if !has_res(rs, id) {
                                r matches Err(LkError::ResourceNotFound(s)) && s@ == id
                            } else {
                                r matches Ok(v) && tree_views(v@) == build_tree(
                                    rs,
                                    Some(id),
                                    (rs.len() + 1) as nat,
                                )
                            },
                            None => r matches Ok(v) && tree_views(v@) == build_tree(
                                rs,
                                None,
                                (rs.len() + 1) as nat,
                            ),
                        }
                    },
                }
            }),
    {
        proof {
            if let Some(n) = world {
                lemma_key_index(world_names(self.worlds@), n@, 0);
            }
        }
        let k = match self.resolve_world(world) {
            Ok(k) => k,
            Err(e) => {
                return Err(e);
            },
        };
        assert(resolve_spec_idx(self.worlds@, opt_str(*world)) == Some(k as int));
        let rs = &self.worlds[k].1.resources;
        let fuel: u128 = rs.len() as u128 + 1;
        match root_id {
            Some(id) => {
                if crate::lk::builder::find_resource_pub(rs, id.as_str()) == rs.len() {
                    return Err(LkError::ResourceNotFound(id.clone()));
                }
                Ok(build_tree_exec(rs, root_id, fuel))
            },
            None => Ok(build_tree_exec(rs, root_id, fuel)),
        }
    }
}

fn tree_ends_exec(rs: &Vec<Resource>, p: &Option<String>, fuel: u128) -> (b: bool)
    ensures
        b == tree_ends(rs@, opt_str(*p), fuel as nat),
    decreases fuel,
{
    if fuel == 0 {
        return false;
    }
    let ghost cs = kids_of_parent(rs@, opt_str(*p));
    let idx = children_exec(rs, p);
    let mut i: usize = 0;
    while i < idx.len()
        invariant
            i <= idx.len(),
            fuel > 0,
            cs == kids_of_parent(rs@, opt_str(*p)),
            idx.len() == cs.len(),
            forall|k: int| 0 <= k < idx.len() ==> (#[trigger] idx@[k]) < rs.len() && rs@[idx@[k] as int] == cs[k],
            kids_end(rs@, cs, i as int, fuel as nat),
        decreases idx.len() - i,
    {
        let r = &rs[idx[i]];
        assert(*r == cs[i as int]);
        let child_id = Some(r.id.clone());
        if !tree_ends_exec(rs, &child_id, fuel - 1) {
            proof {
                lemma_kids_end_false(rs@, cs, cs.len() as int, i + 1, fuel as nat);
            }
            return false;
        }
        i = i + 1;
    }
    true
}

proof fn lemma_kids_end_false(rs: Seq<Resource>, cs: Seq<Resource>, k: int, j: int, fuel: nat)
    requires
        0 < j <= k <= cs.len(),
        fuel > 0,
        !tree_ends(rs, Some(cs[j - 1].id@), (fuel - 1) as nat),
    ensures
        !kids_end(rs, cs, k, fuel),
    decreases k,
{
    if j < k {
        lemma_kids_end_false(rs, cs, k - 1, j, fuel);
    }
}

impl WorldStore {
    /// Whether the resource tree a query asks for is finite.
    pub fn resource_tree_is_finite(&self, world: &Option<String>, root_id: &Option<String>) -> (b: bool)
        ensures
            resolve_spec_idx(self.worlds@, opt_str(*world)) matches Some(k) ==> b == self.tree_is_finite(
                k,
                opt_str(*root_id),
            ),
    {
        proof {
            if let Some(n) = world {
                lemma_key_index(world_names(self.worlds@), n@, 0);
            }
        }
        match self.resolve_world(world) {
            Ok(k) => {
                assert(resolve_spec_idx(self.worlds@, opt_str(*world)) == Some(k as int));
                let rs = &self.worlds[k].1.resources;
                tree_ends_exec(rs, root_id, rs.len() as u128 + 1)
            },
            Err(_) => true,
        }
    }

    /// Unloads the world of that name; whether there was one.
    pub fn remove_world(&mut self, name: &str) -> (b: bool)
        requires
            old(self).wf(),
        ensures
            final(self).wf(),
            b == old(self).world_map().contains_key(name@),
            final(self).world_map() == old(self).world_map().remove(name@),
    {
        let ghost ws0 = self.worlds@;
        let k = self.find_world(name);
        if k == self.worlds.len() {
            assert(self.world_map() =~= old(self).world_map().remove(name@));
            return false;
        }
        self.worlds.remove(k);
        let ghost ws1 = self.worlds@;
        assert(ws1 =~= ws0.remove(k as int));
        assert forall|i: int, j: int| 0 <= i < j < ws1.len() implies (#[trigger] ws1[i]).0@ != (
            #[trigger] ws1[j]).0@ by {
            let i0 = if i < k { i } else { i + 1 };
            let j0 = if j < k { j } else { j + 1 };
            assert(ws1[i] == ws0[i0]);
            assert(ws1[j] == ws0[j0]);
            assert(ws0[i0].0@ != ws0[j0].0@);
        }
        assert forall|x: Seq<char>| world_names(ws1).contains(x) <==> (world_names(ws0).contains(x) && x != name@) by {
            if world_names(ws1).contains(x) {
                let j = choose|j: int| 0 <= j < ws1.len() && world_names(ws1)[j] == x;
                let j0 = if j < k { j } else { j + 1 };
                assert(world_names(ws0)[j0] == x);
                assert(ws0[j0].0@ != ws0[k as int].0@ || j0 == k);
            }
            if world_names(ws0).contains(x) && x != name@ {
                let j = choose|j: int| 0 <= j < ws0.len() && world_names(ws0)[j] == x;
                assert(j != k);
                let j1 = if j < k { j } else { j - 1 };
                assert(world_names(ws1)[j1] == x);
            }
        }
        assert forall|x: Seq<char>| #[trigger] world_names(ws1).contains(x) implies ws1[key_index(
            world_names(ws1),
            x,
            0,
        )].1 == ws0[key_index(world_names(ws0), x, 0)].1 by {
            lemma_key_index(world_names(ws1), x, 0);
            lemma_key_index(world_names(ws0), x, 0);
            let a = key_index(world_names(ws1), x, 0);
            let b = key_index(world_names(ws0), x, 0);
            let a0 = if a < k { a } else { a + 1 };
            assert(world_names(ws0)[a0] == x);
            assert(ws0[b].0@ == x);
            if a0 != b {
                assert(ws0[a0].0@ == ws0[b].0@);
            }
        }
        assert(self.world_map() =~= old(self).world_map().remove(name@));
        true
    }
}
} // verus!
