//! Reading the CommonMark XML form of a parsed markdown document into a tree.

use vstd::prelude::*;
use crate::text::{chars_of, find_from, find_seq_from, starts_with, str_eq, string_of_range};

verus! {

/// A node of a parsed markdown document: its element name, attributes,
/// literal text and children.
pub struct MdNode {
    pub name: String,
    pub attrs: Vec<(String, String)>,
    pub text: String,
    pub children: Vec<MdNode>,
}

/// Model of a markdown node.
pub struct MdTree {
    pub name: Seq<char>,
    pub akeys: Seq<Seq<char>>,
    pub avals: Seq<Seq<char>>,
    pub text: Seq<char>,
    pub children: Seq<MdTree>,
}

pub open spec fn empty_tree() -> MdTree {
    MdTree { name: seq![], akeys: seq![], avals: seq![], text: seq![], children: seq![] }
}

impl View for MdNode {
    type V = MdTree;

    open spec fn view(&self) -> MdTree
        decreases self,
    {
        MdTree {
            name: self.name@,
            akeys: Seq::new(self.attrs.len() as nat, |i: int| self.attrs@[i].0@),
            avals: Seq::new(self.attrs.len() as nat, |i: int| self.attrs@[i].1@),
            text: self.text@,
            children: Seq::new(
                self.children.len() as nat,
                |i: int| if 0 <= i < self.children.len() { self.children[i]@ } else { empty_tree() },
            ),
        }
    }
}

/// The value of the first attribute named `k`, if the node has one.
pub open spec fn attr_of(t: MdTree, k: Seq<char>) -> Option<Seq<char>> {
    let i = crate::json::key_index(t.akeys, k, 0);
    if 0 <= i < t.akeys.len() && i < t.avals.len() {
        Some(t.avals[i])
    } else {
        None
    }
}

/// End of an element name starting at `i`.
pub open spec fn name_end(s: Seq<char>, i: int) -> int
    decreases s.len() - i,
{
    if i < 0 || i >= s.len() || s[i] == ' ' || s[i] == '>' || s[i] == '/' || s[i] == '\n' {
        if i < 0 { 0 } else { i }
    } else {
        name_end(s, i + 1)
    }
}

/// First index at or after `i` holding `c`, or `s.len()`.
pub open spec fn next_char(s: Seq<char>, i: int, c: char) -> int
    decreases s.len() - i,
{
    if i < 0 || i >= s.len() || s[i] == c {
        if i < 0 { 0 } else { i }
    } else {
        next_char(s, i + 1, c)
    }
}

/// First index at or after `i` that is no space and no newline.
pub open spec fn skip_ws(s: Seq<char>, i: int) -> int
    decreases s.len() - i,
{
    if i < 0 || i >= s.len() || (s[i] != ' ' && s[i] != '\n') {
        if i < 0 { 0 } else { i }
    } else {
        skip_ws(s, i + 1)
    }
}

/// Skips one newline at `i`, if there is one.
pub open spec fn skip_nl(s: Seq<char>, i: int) -> int {
    if 0 <= i < s.len() && s[i] == '\n' {
        i + 1
    } else {
        i
    }
}

/// Text with the XML entities `&quot;`, `&amp;`, `&lt;` and `&gt;` replaced
/// by their characters.
pub open spec fn unescape(s: Seq<char>) -> Seq<char>
    decreases s.len(),
{
    if s.len() == 0 {
        seq![]
    } else if s.len() >= 6 && s.take(6) == "&quot;"@ {
        seq!['"'] + unescape(s.skip(6))
    } else if s.len() >= 5 && s.take(5) == "&amp;"@ {
        seq!['&'] + unescape(s.skip(5))
    } else if s.len() >= 4 && s.take(4) == "&lt;"@ {
        seq!['<'] + unescape(s.skip(4))
    } else if s.len() >= 4 && s.take(4) == "&gt;"@ {
        seq!['>'] + unescape(s.skip(4))
    } else {
        seq![s[0]] + unescape(s.drop_first())
    }
}

/// The code info string ends at the space attribute that always follows it.
pub open spec fn info_end_mark() -> Seq<char> {
    "\" xml:space=\"preserve\">"@
}

pub open spec fn math_mark() -> Seq<char> {
    "\" math_style=\"display"@
}

/// The raw info attribute value starting at `i`, and where it ends.
pub open spec fn info_value(s: Seq<char>, i: int) -> Option<(Seq<char>, int)> {
    match find_from(s, info_end_mark(), i) {
        Some(q) => {
            let v = s.subrange(i, q);
            let v2 = if v.len() >= math_mark().len() && v.skip(v.len() - math_mark().len()) == math_mark() {
                v.take(v.len() - math_mark().len())
            } else {
                v
            };
            Some((v2, q + 1))
        },
        None => None,
    }
}

/// Parses the element that starts at `i`.
pub open spec fn p_elem(s: Seq<char>, i: int) -> Option<(MdTree, int)>
    decreases s.len() - i, 0int,
{
    if i < 0 || i >= s.len() || s[i] != '<' {
        None
    } else {
        let ne = name_end(s, i + 1);
        if ne <= i || ne > s.len() {
            None
        } else {
            p_attrs(s, ne, s.subrange(i + 1, ne), seq![], seq![])
        }
    }
}

/// Parses the attributes and the rest of an element, from `j` on.
pub open spec fn p_attrs(
    s: Seq<char>,
    j: int,
    name: Seq<char>,
    ks: Seq<Seq<char>>,
    vs: Seq<Seq<char>>,
) -> Option<(MdTree, int)>
    decreases s.len() - j, 0int,
{
    if j < 0 || j + 1 >= s.len() {
        None
    } else if s[j] == ' ' && s[j + 1] == '/' {
        if j + 2 < s.len() && s[j + 2] == '>' {
            Some((MdTree { name, akeys: ks, avals: vs, text: seq![], children: seq![] }, skip_nl(s, j + 3)))
        } else {
            None
        }
    } else if s[j] == ' ' {
        let eq = next_char(s, j + 1, '=');
        if s.len() - eq <= 1 || s[eq + 1] != '"' || eq <= j {
            None
        } else {
            let key = s.subrange(j + 1, eq);
            if name == "code_block"@ && key == "info"@ {
                match info_value(s, eq + 2) {
                    Some((v, after)) => if after <= j || after > s.len() {
                        None
                    } else {
                        p_attrs(s, after, name, ks.push(key), vs.push(v))
                    },
                    None => None,
                }
            } else {
                let q = next_char(s, eq + 2, '"');
                if q >= s.len() || q <= j || eq + 2 > q {
                    None
                } else {
                    p_attrs(s, q + 1, name, ks.push(key), vs.push(unescape(s.subrange(eq + 2, q))))
                }
            }
        }
    } else if s[j] == '>' {
        if ks.contains("xml:space"@) {
            let lt = next_char(s, j + 1, '<');
            let text = unescape(s.subrange(j + 1, lt));
            let close = next_char(s, lt, '>');
            if close >= s.len() || lt >= s.len() {
                None
            } else {
                Some((MdTree { name, akeys: ks, avals: vs, text, children: seq![] }, skip_nl(s, close + 1)))
            }
        } else {
            match p_children(s, skip_nl(s, j + 1)) {
                Some((cs, end)) => Some((MdTree { name, akeys: ks, avals: vs, text: seq![], children: cs }, end)),
                None => None,
            }
        }
    } else {
        None
    }
}

/// Parses the children of an element up to its closing tag, from `i` on.
pub open spec fn p_children(s: Seq<char>, i: int) -> Option<(Seq<MdTree>, int)>
    decreases s.len() - i, 1int,
{
    let k = skip_ws(s, i);
    if i < 0 || k < i || k + 1 >= s.len() {
        None
    } else if s[k] == '<' && s[k + 1] == '/' {
        let close = next_char(s, k, '>');
        if close >= s.len() {
            None
        } else {
            Some((seq![], skip_nl(s, close + 1)))
        }
    } else {
        match p_elem(s, k) {
            Some((t, j)) => if j <= k || j > s.len() {
                None
            } else {
                match p_children(s, j) {
                    Some((cs, end)) => Some((seq![t] + cs, end)),
                    None => None,
                }
            },
            None => None,
        }
    }
}

/// The tree of a CommonMark XML document: its `document` element.
pub open spec fn p_document(s: Seq<char>) -> Option<MdTree> {
    match find_from(s, "<document"@, 0) {
        Some(i) => match p_elem(s, i) {
            Some((t, _)) => Some(t),
            None => None,
        },
        None => None,
    }
}

pub open spec fn akeys_of(a: Seq<(String, String)>) -> Seq<Seq<char>> {
    Seq::new(a.len(), |i: int| a[i].0@)
}

pub open spec fn avals_of(a: Seq<(String, String)>) -> Seq<Seq<char>> {
    Seq::new(a.len(), |i: int| a[i].1@)
}

pub open spec fn kids_of(v: Seq<MdNode>) -> Seq<MdTree> {
    Seq::new(v.len(), |i: int| v[i]@)
}

pub proof fn lemma_node_view(n: MdNode)
    ensures
        n@.name == n.name@,
        n@.text == n.text@,
        n@.akeys == akeys_of(n.attrs@),
        n@.avals == avals_of(n.attrs@),
        n@.children == kids_of(n.children@),
{
    assert(n@.akeys =~= akeys_of(n.attrs@));
    assert(n@.avals =~= avals_of(n.attrs@));
    assert(n@.children =~= kids_of(n.children@));
}

fn name_end_exec(s: &[char], i: usize) -> (r: usize)
    requires
        i <= s.len(),
    ensures
        r == name_end(s@, i as int),
        i <= r <= s.len(),
{
    let mut j = i;
    while j < s.len() && s[j] != ' ' && s[j] != '>' && s[j] != '/' && s[j] != '\n'
        invariant
            i <= j <= s.len(),
            name_end(s@, i as int) == name_end(s@, j as int),
        decreases s.len() - j,
    {
        j = j + 1;
    }
    j
}

fn next_char_exec(s: &[char], i: usize, c: char) -> (r: usize)
    requires
        i <= s.len(),
    ensures
        r == next_char(s@, i as int, c),
        i <= r <= s.len(),
{
    let mut j = i;
    while j < s.len() && s[j] != c
        invariant
            i <= j <= s.len(),
            next_char(s@, i as int, c) == next_char(s@, j as int, c),
        decreases s.len() - j,
    {
        j = j + 1;
    }
    j
}

fn skip_ws_exec(s: &[char], i: usize) -> (r: usize)
    requires
        i <= s.len(),
    ensures
        r == skip_ws(s@, i as int),
        i <= r <= s.len(),
{
    let mut j = i;
    while j < s.len() && (s[j] == ' ' || s[j] == '\n')
        invariant
            i <= j <= s.len(),
            skip_ws(s@, i as int) == skip_ws(s@, j as int),
        decreases s.len() - j,
    {
        j = j + 1;
    }
    j
}

fn skip_nl_exec(s: &[char], i: usize) -> (r: usize)
    requires
        i <= s.len(),
    ensures
        r == skip_nl(s@, i as int),
        r <= s.len(),
{
    if i < s.len() && s[i] == '\n' {
        i + 1
    } else {
        i
    }
}

/// Does `s[p..]` start with the characters of `lit`?
fn at(s: &[char], p: usize, lit: &[char]) -> (r: bool)
    requires
        p <= s.len(),
    ensures
        r == (p + lit.len() <= s.len() && s@.subrange(p as int, p + lit.len()) == lit@),
{
    if lit.len() > s.len() - p {
        return false;
    }
    let mut k: usize = 0;
    while k < lit.len()
        invariant
            p + lit.len() <= s.len(),
            k <= lit.len(),
            forall|m: int| 0 <= m < k ==> s@[p + m] == lit@[m],
        decreases lit.len() - k,
    {
        if s[p + k] != lit[k] {
            assert(s@.subrange(p as int, p + lit.len())[k as int] != lit@[k as int]);
            return false;
        }
        k = k + 1;
    }
    assert(s@.subrange(p as int, p + lit.len()) =~= lit@);
    true
}

/// XML entities replaced by their characters, in `s[from..to]`.
fn unescape_exec(s: &[char], from: usize, to: usize) -> (r: String)
    requires
        from <= to <= s.len(),
    ensures
        r@ == unescape(s@.subrange(from as int, to as int)),
{
    let quot = chars_of("&quot;");
    let amp = chars_of("&amp;");
    let lt = chars_of("&lt;");
    let gt = chars_of("&gt;");
    let sub = string_of_range(s, from, to);
    let t = chars_of(sub.as_str());
    let mut out = String::new();
    let mut p: usize = 0;
    assert(t@.skip(0) == t@);
    while p < t.len()
        invariant
            p <= t.len(),
            t@ == s@.subrange(from as int, to as int),
            quot@ == "&quot;"@,
            amp@ == "&amp;"@,
            lt@ == "&lt;"@,
            gt@ == "&gt;"@,
            unescape(t@) == out@ + unescape(t@.skip(p as int)),
        decreases t.len() - p,
    {
        let ghost rest = t@.skip(p as int);
        proof {
            reveal_strlit("&quot;");
            reveal_strlit("&amp;");
            reveal_strlit("&lt;");
            reveal_strlit("&gt;");
        }
        if at(&t, p, &quot) {
            assert(rest.take(6) == t@.subrange(p as int, p + 6));
            assert(rest.skip(6) == t@.skip(p + 6));
            out.push('"');
            p = p + 6;
        } else if at(&t, p, &amp) {
            assert(rest.take(6) != "&quot;"@ || rest.len() < 6) by {
                if rest.len() >= 6 {
                    assert(rest.take(6) == t@.subrange(p as int, p + 6));
                }
            }
            assert(rest.take(5) == t@.subrange(p as int, p + 5));
            assert(rest.skip(5) == t@.skip(p + 5));
            out.push('&');
            p = p + 5;
        } else if at(&t, p, &lt) {
            assert(rest.take(6) != "&quot;"@ || rest.len() < 6) by {
                if rest.len() >= 6 {
                    assert(rest.take(6) == t@.subrange(p as int, p + 6));
                }
            }
            assert(rest.take(5) != "&amp;"@ || rest.len() < 5) by {
                if rest.len() >= 5 {
                    assert(rest.take(5) == t@.subrange(p as int, p + 5));
                }
            }
            assert(rest.take(4) == t@.subrange(p as int, p + 4));
            assert(rest.skip(4) == t@.skip(p + 4));
            out.push('<');
            p = p + 4;
        } else if at(&t, p, &gt) {
            assert(rest.take(6) != "&quot;"@ || rest.len() < 6) by {
                if rest.len() >= 6 {
                    assert(rest.take(6) == t@.subrange(p as int, p + 6));
                }
            }
            assert(rest.take(5) != "&amp;"@ || rest.len() < 5) by {
                if rest.len() >= 5 {
                    assert(rest.take(5) == t@.subrange(p as int, p + 5));
                }
            }
            assert(rest.take(4) != "&lt;"@ || rest.len() < 4) by {
                if rest.len() >= 4 {
                    assert(rest.take(4) == t@.subrange(p as int, p + 4));
                }
            }
            assert(rest.take(4) == t@.subrange(p as int, p + 4));
            assert(rest.skip(4) == t@.skip(p + 4));
            out.push('>');
            p = p + 4;
        } else {
            assert(rest.take(6) != "&quot;"@ || rest.len() < 6) by {
                if rest.len() >= 6 {
                    assert(rest.take(6) == t@.subrange(p as int, p + 6));
                }
            }
            assert(rest.take(5) != "&amp;"@ || rest.len() < 5) by {
                if rest.len() >= 5 {
                    assert(rest.take(5) == t@.subrange(p as int, p + 5));
                }
            }
            assert(rest.take(4) != "&lt;"@ || rest.len() < 4) by {
                if rest.len() >= 4 {
                    assert(rest.take(4) == t@.subrange(p as int, p + 4));
                }
            }
            assert(rest.take(4) != "&gt;"@ || rest.len() < 4) by {
                if rest.len() >= 4 {
                    assert(rest.take(4) == t@.subrange(p as int, p + 4));
                }
            }
            assert(rest.drop_first() == t@.skip(p + 1));
            out.push(t[p]);
            p = p + 1;
        }
    }
    assert(t@.skip(p as int) == Seq::<char>::empty());
    out
}


pub proof fn lemma_find_from_bounds(hay: Seq<char>, needle: Seq<char>, i: int)
    ensures
        find_from(hay, needle, i) matches Some(k) ==> i <= k && k + needle.len() <= hay.len()
            && hay.subrange(k, k + needle.len()) == needle,
    decreases hay.len() + 1 - i,
{
    if !(i < 0 || i + needle.len() > hay.len()) && hay.subrange(i, i + needle.len()) != needle {
        lemma_find_from_bounds(hay, needle, i + 1);
    }
}

/// `r` is what the parse result `o` describes.
pub open spec fn parsed_as(r: Option<(MdNode, usize)>, o: Option<(MdTree, int)>) -> bool {
    match o {
        None => r is None,
        Some((t, e)) => r matches Some((n, k)) && n@ == t && k == e,
    }
}

pub open spec fn parsed_list_as(r: Option<(Vec<MdNode>, usize)>, o: Option<(Seq<MdTree>, int)>) -> bool {
    match o {
        None => r is None,
        Some((ts, e)) => r matches Some((v, k)) && kids_of(v@) == ts && k == e,
    }
}

fn info_value_exec(s: &Vec<char>, i: usize) -> (r: Option<(String, usize)>)
    requires
        i <= s.len(),
    ensures
        match info_value(s@, i as int) {
            None => r is None,
            Some((v, a)) => r matches Some((vv, aa)) && vv@ == v && aa == a,
        },
{
    let mark = chars_of("\" xml:space=\"preserve\">");
    let mm = chars_of("\" math_style=\"display");
    proof {
        lemma_find_from_bounds(s@, mark@, i as int);
        reveal_strlit("\" xml:space=\"preserve\">");
    }
    match find_seq_from(s, &mark, i) {
        None => None,
        Some(q) => {
            let ghost v = s@.subrange(i as int, q as int);
            let m = mm.len();
            if q - i >= m && at(s, q - m, &mm) {
                assert(v.skip(v.len() - m) =~= s@.subrange(q - m, q as int));
                assert(v.take(v.len() - m) =~= s@.subrange(i as int, q - m));
                Some((string_of_range(s, i, q - m), q + 1))
            } else {
                proof {
                    if v.len() >= m {
                        assert(v.skip(v.len() - m) =~= s@.subrange(q - m, q as int));
                    }
                }
                Some((string_of_range(s, i, q), q + 1))
            }
        },
    }
}

fn has_xml_space(attrs: &Vec<(String, String)>) -> (b: bool)
    ensures
        b == akeys_of(attrs@).contains("xml:space"@),
{
    let mut i: usize = 0;
    while i < attrs.len()
        invariant
            i <= attrs.len(),
            forall|j: int| 0 <= j < i ==> akeys_of(attrs@)[j] != "xml:space"@,
        decreases attrs.len() - i,
    {
        if str_eq(attrs[i].0.as_str(), "xml:space") {
            assert(akeys_of(attrs@)[i as int] == "xml:space"@);
            return true;
        }
        i = i + 1;
    }
    false
}

fn leaf(name: String, attrs: Vec<(String, String)>, text: String) -> (n: MdNode)
    ensures
        n@ == (MdTree {
            name: name@,
            akeys: akeys_of(attrs@),
            avals: avals_of(attrs@),
            text: text@,
            children: seq![],
        }),
{
    let n = MdNode { name, attrs, text, children: Vec::new() };
    proof {
        lemma_node_view(n);
        assert(kids_of(n.children@) =~= Seq::<MdTree>::empty());
    }
    n
}

fn p_elem_exec(s: &Vec<char>, i: usize) -> (r: Option<(MdNode, usize)>)
    requires
        i <= s.len(),
    ensures
        parsed_as(r, p_elem(s@, i as int)),
        r matches Some((_, k)) ==> k <= s.len(),
    decreases s.len() - i, 0int,
{
    if i >= s.len() || s[i] != '<' {
        return None;
    }
    let ne = name_end_exec(s, i + 1);
    let name = string_of_range(s, i + 1, ne);
    let attrs: Vec<(String, String)> = Vec::new();
    assert(akeys_of(attrs@) =~= Seq::<Seq<char>>::empty());
    assert(avals_of(attrs@) =~= Seq::<Seq<char>>::empty());
    p_attrs_exec(s, ne, name, attrs)
}

fn p_attrs_exec(s: &Vec<char>, j: usize, name: String, attrs: Vec<(String, String)>) -> (r: Option<
    (MdNode, usize),
>)
    requires
        j <= s.len(),
    ensures
        parsed_as(r, p_attrs(s@, j as int, name@, akeys_of(attrs@), avals_of(attrs@))),
        r matches Some((_, k)) ==> k <= s.len(),
    decreases s.len() - j, 0int,
{
    let ghost ks = akeys_of(attrs@);
    let ghost vs = avals_of(attrs@);
    if s.len() - j <= 1 {
        return None;
    }
    if s[j] == ' ' && s[j + 1] == '/' {
        if j + 2 < s.len() && s[j + 2] == '>' {
            let e = skip_nl_exec(s, j + 3);
            return Some((leaf(name, attrs, String::new()), e));
        } else {
            return None;
        }
    }
    if s[j] == ' ' {
        let eq = next_char_exec(s, j + 1, '=');
        if s.len() - eq <= 1 || s[eq + 1] != '"' || eq <= j {
            return None;
        }
        let key = string_of_range(s, j + 1, eq);
        let mut attrs = attrs;
        if str_eq(name.as_str(), "code_block") && str_eq(key.as_str(), "info") {
            match info_value_exec(s, eq + 2) {
                Some((v, after)) => {
                    if after <= j || after > s.len() {
                        return None;
                    }
                    let ghost kv = key@;
                    let ghost vv = v@;
                    attrs.push((key, v));
                    assert(akeys_of(attrs@) =~= ks.push(kv));
                    assert(avals_of(attrs@) =~= vs.push(vv));
                    return p_attrs_exec(s, after, name, attrs);
                },
                None => {
                    return None;
                },
            }
        } else {
            let q = next_char_exec(s, eq + 2, '"');
            if q >= s.len() || q <= j || eq + 2 > q {
                return None;
            }
            let v = unescape_exec(s, eq + 2, q);
            let ghost kv = key@;
            let ghost vv = v@;
            attrs.push((key, v));
            assert(akeys_of(attrs@) =~= ks.push(kv));
            assert(avals_of(attrs@) =~= vs.push(vv));
            return p_attrs_exec(s, q + 1, name, attrs);
        }
    }
    if s[j] == '>' {
        if has_xml_space(&attrs) {
            let lt = next_char_exec(s, j + 1, '<');
            let text = unescape_exec(s, j + 1, lt);
            let close = next_char_exec(s, lt, '>');
            if close >= s.len() || lt >= s.len() {
                return None;
            }
            let e = skip_nl_exec(s, close + 1);
            return Some((leaf(name, attrs, text), e));
        } else {
            let start = skip_nl_exec(s, j + 1);
            match p_children_exec(s, start) {
                Some((cs, end)) => {
                    let n = MdNode { name, attrs, text: String::new(), children: cs };
                    proof {
                        lemma_node_view(n);
                    }
                    return Some((n, end));
                },
                None => {
                    return None;
                },
            }
        }
    }
    None
}

fn p_children_exec(s: &Vec<char>, i: usize) -> (r: Option<(Vec<MdNode>, usize)>)
    requires
        i <= s.len(),
    ensures
        parsed_list_as(r, p_children(s@, i as int)),
        r matches Some((_, k)) ==> k <= s.len(),
    decreases s.len() - i, 1int,
{
    let k = skip_ws_exec(s, i);
    if s.len() - k <= 1 {
        return None;
    }
    if s[k] == '<' && s[k + 1] == '/' {
        let close = next_char_exec(s, k, '>');
        if close >= s.len() {
            return None;
        }
        let e = skip_nl_exec(s, close + 1);
        let v: Vec<MdNode> = Vec::new();
        assert(kids_of(v@) =~= Seq::<MdTree>::empty());
        return Some((v, e));
    }
    match p_elem_exec(s, k) {
        Some((t, j)) => {
            if j <= k || j > s.len() {
                return None;
            }
            match p_children_exec(s, j) {
                Some((cs, end)) => {
                    let ghost tv = t@;
                    let ghost csv = kids_of(cs@);
                    let mut cs = cs;
                    cs.insert(0, t);
                    assert(kids_of(cs@) =~= seq![tv] + csv);
                    Some((cs, end))
                },
                None => None,
            }
        },
        None => None,
    }
}

/// Reads the `document` element of a CommonMark XML text.
pub fn parse_commonmark_xml(xml: &str) -> (r: Option<MdNode>)
    ensures
        match p_document(xml@) {
            None => r is None,
            Some(t) => r matches Some(n) && n@ == t,
        },
{
    let s = chars_of(xml);
    let start = chars_of("<document");
    proof {
        lemma_find_from_bounds(s@, start@, 0);
    }
    match find_seq_from(&s, &start, 0) {
        Some(i) => match p_elem_exec(&s, i) {
            Some((n, _)) => Some(n),
            None => None,
        },
        None => None,
    }
}
} // verus!
