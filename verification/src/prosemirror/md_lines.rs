//! Line-level preparation of markdown: pipe tables written without a header
//! separator row are taken out before parsing and stand as placeholders.

use vstd::prelude::*;
use crate::text::{
    chars_of, find_char, lines_of, lines_spec, nat_dec, string_of, trim_chars, trim_spec,
    usize_to_string, lemma_find_char,
};

verus! {

/// `s` without the characters `c` at both ends (`str::trim_matches`).
pub open spec fn trim_matches_spec(s: Seq<char>, c: char) -> Seq<char>
    decreases s.len(),
{
    if s.len() > 0 && s[0] == c {
        trim_matches_spec(s.drop_first(), c)
    } else if s.len() > 0 && s.last() == c {
        trim_matches_spec(s.drop_last(), c)
    } else {
        s
    }
}

pub open spec fn has_char(s: Seq<char>, c: char) -> bool {
    exists|i: int| 0 <= i < s.len() && s[i] == c
}

/// A separator row of a pipe table: only dashes, pipes, spaces and colons,
/// with at least one dash.
pub open spec fn is_separator_row_spec(line: Seq<char>) -> bool {
    let t = trim_spec(trim_matches_spec(trim_spec(line), '|'));
    t.len() > 0 && (forall|i: int|
        0 <= i < t.len() ==> (t[i] == '-' || t[i] == '|' || t[i] == ' ' || t[i] == ':'))
        && has_char(t, '-')
}

/// A row of a pipe table: not blank, holds a pipe, and is no separator row.
pub open spec fn is_table_row_spec(line: Seq<char>) -> bool {
    let t = trim_spec(line);
    t.len() > 0 && has_char(t, '|') && !is_separator_row_spec(t)
}

/// The pieces of `s` between the occurrences of `c` (`str::split`).
pub open spec fn split_spec(s: Seq<char>, c: char) -> Seq<Seq<char>>
    decreases s.len(),
{
    let e = find_char(s, c);
    if e >= s.len() {
        seq![s]
    } else {
        proof {
            lemma_find_char(s, c);
        }
        seq![s.take(e)] + split_spec(s.skip(e + 1), c)
    }
}

/// The non-empty trimmed pieces of a list, in order.
pub open spec fn nonempty_trimmed(parts: Seq<Seq<char>>) -> Seq<Seq<char>>
    decreases parts.len(),
{
    if parts.len() == 0 {
        seq![]
    } else {
        let rest = nonempty_trimmed(parts.drop_last());
        let t = trim_spec(parts.last());
        if t.len() > 0 {
            rest.push(t)
        } else {
            rest
        }
    }
}

/// The cells of a pipe-delimited row: the non-empty trimmed pieces between pipes.
pub open spec fn pipe_cells(line: Seq<char>) -> Seq<Seq<char>> {
    nonempty_trimmed(split_spec(trim_spec(line), '|'))
}

/// The text that stands for headerless table `k`.
pub open spec fn placeholder(k: nat) -> Seq<char> {
    "LKTABLEPLACEHOLDER"@ + nat_dec(k)
}

/// A line that continues a run of table rows.
pub open spec fn run_line(line: Seq<char>) -> bool {
    is_table_row_spec(trim_spec(line)) || is_separator_row_spec(trim_spec(line))
}

/// The end of the run of table lines that starts at `j`.
pub open spec fn run_end(lines: Seq<Seq<char>>, j: int) -> int
    decreases lines.len() - j,
{
    if j < 0 || j >= lines.len() || !run_line(lines[j]) {
        if j < 0 { 0 } else { j }
    } else {
        run_end(lines, j + 1)
    }
}

pub proof fn lemma_run_end(lines: Seq<Seq<char>>, j: int)
    requires
        0 <= j <= lines.len(),
    ensures
        j <= run_end(lines, j) <= lines.len(),
        forall|m: int| j <= m < run_end(lines, j) ==> run_line(#[trigger] lines[m]),
        run_end(lines, j) < lines.len() ==> !run_line(lines[run_end(lines, j)]),
    decreases lines.len() - j,
{
    if j < lines.len() && run_line(lines[j]) {
        lemma_run_end(lines, j + 1);
    }
}

/// Some line in `[a, b)` is a separator row.
pub open spec fn has_sep(lines: Seq<Seq<char>>, a: int, b: int) -> bool {
    exists|j: int| a <= j < b && is_separator_row_spec(#[trigger] trim_spec(lines[j]))
}

/// The lines `[a, b)`, each followed by a newline.
pub open spec fn emit_lines(lines: Seq<Seq<char>>, a: int, b: int) -> Seq<char>
    decreases b - a,
{
    if a >= b {
        seq![]
    } else {
        emit_lines(lines, a, b - 1) + lines[b - 1] + seq!['\n']
    }
}

/// An extracted table: its placeholder and the cells of its rows.
pub struct ExtractedTable {
    pub placeholder: String,
    pub rows: Vec<Vec<String>>,
}

/// Model of an extracted table.
pub open spec fn table_model(t: ExtractedTable) -> (Seq<char>, Seq<Seq<Seq<char>>>) {
    (t.placeholder@, Seq::new(t.rows.len() as nat, |r: int| Seq::new(t.rows[r].len() as nat, |c: int| t.rows[r][c]@)))
}

/// The rows `[a, b)` cut into cells.
pub open spec fn run_rows(lines: Seq<Seq<char>>, a: int, b: int) -> Seq<Seq<Seq<char>>> {
    Seq::new((b - a) as nat, |j: int| pipe_cells(lines[a + j]))
}

/// The markdown and tables produced from line `i` on, with `k` tables
/// taken out before.
pub open spec fn extract_from(lines: Seq<Seq<char>>, i: int, k: nat) -> (
    Seq<char>,
    Seq<(Seq<char>, Seq<Seq<Seq<char>>>)>,
)
    decreases lines.len() - i,
{
    if i < 0 || i >= lines.len() {
        (seq![], seq![])
    } else if !is_table_row_spec(trim_spec(lines[i])) {
        let rest = extract_from(lines, i + 1, k);
        (lines[i] + seq!['\n'] + rest.0, rest.1)
    } else {
        let e = run_end(lines, i + 1);
        proof {
            lemma_run_end(lines, i + 1);
        }
        if e <= i {
            (seq![], seq![])
        } else if has_sep(lines, i, e) {
            let rest = extract_from(lines, e, k);
            (emit_lines(lines, i, e) + rest.0, rest.1)
        } else if e - i < 2 {
            let rest = extract_from(lines, i + 1, k);
            (lines[i] + seq!['\n'] + rest.0, rest.1)
        } else {
            let rest = extract_from(lines, e, k + 1);
            (
                seq!['\n'] + placeholder(k) + seq!['\n', '\n'] + rest.0,
                seq![(placeholder(k), run_rows(lines, i, e))] + rest.1,
            )
        }
    }
}

/// Markdown with its headerless tables taken out, and those tables.
pub open spec fn extract_tables_spec(md: Seq<char>) -> (
    Seq<char>,
    Seq<(Seq<char>, Seq<Seq<Seq<char>>>)>,
) {
    let r = extract_from(lines_spec(md), 0, 0);
    let out = r.0;
    let out2 = if !(md.len() > 0 && md.last() == '\n') && out.len() > 0 && out.last() == '\n' {
        out.drop_last()
    } else {
        out
    };
    (out2, r.1)
}

/// `str::trim_matches` with one character.
pub fn trim_matches_char(s: &[char], c: char) -> (r: Vec<char>)
    ensures
        r@ == trim_matches_spec(s@, c),
{
    let mut lo: usize = 0;
    let mut hi: usize = s.len();
    assert(s@.subrange(0, s.len() as int) == s@);
    while lo < hi && (s[lo] == c || s[hi - 1] == c)
        invariant
            lo <= hi <= s.len(),
            trim_matches_spec(s@, c) == trim_matches_spec(s@.subrange(lo as int, hi as int), c),
        decreases hi - lo,
    {
        let ghost cur = s@.subrange(lo as int, hi as int);
        if s[lo] == c {
            assert(cur.drop_first() == s@.subrange(lo + 1, hi as int));
            lo = lo + 1;
        } else {
            assert(cur.drop_last() == s@.subrange(lo as int, hi - 1));
            hi = hi - 1;
        }
    }
    let mut r: Vec<char> = Vec::new();
    let mut j = lo;
    while j < hi
        invariant
            lo <= j <= hi <= s.len(),
            r@ == s@.subrange(lo as int, j as int),
        decreases hi - j,
    {
        r.push(s[j]);
        j = j + 1;
        assert(r@ == s@.subrange(lo as int, j as int));
    }
    r
}

fn has_char_exec(s: &[char], c: char) -> (r: bool)
    ensures
        r == has_char(s@, c),
{
    let mut i: usize = 0;
    while i < s.len()
        invariant
            i <= s.len(),
            forall|j: int| 0 <= j < i ==> s@[j] != c,
        decreases s.len() - i,
    {
        if s[i] == c {
            return true;
        }
        i = i + 1;
    }
    false
}

/// A separator row of a pipe table (`|---|:--:|`).
pub fn is_separator_row(line: &[char]) -> (r: bool)
    ensures
        r == is_separator_row_spec(line@),
{
    let t1 = trim_chars(line);
    let t2 = trim_matches_char(&t1, '|');
    let t = trim_chars(&t2);
    assert(t@ == trim_spec(trim_matches_spec(trim_spec(line@), '|')));
    if t.len() == 0 {
        return false;
    }
    let mut i: usize = 0;
    while i < t.len()
        invariant
            i <= t.len(),
            t@ == trim_spec(trim_matches_spec(trim_spec(line@), '|')),
            forall|j: int| 0 <= j < i ==> (t@[j] == '-' || t@[j] == '|' || t@[j] == ' ' || t@[j] == ':'),
        decreases t.len() - i,
    {
        let ch = t[i];
        if !(ch == '-' || ch == '|' || ch == ' ' || ch == ':') {
            assert(!(t@[i as int] == '-' || t@[i as int] == '|' || t@[i as int] == ' ' || t@[i as int] == ':'));
            return false;
        }
        i = i + 1;
    }
    has_char_exec(&t, '-')
}

/// A row of a pipe table.
pub fn is_table_row(line: &[char]) -> (r: bool)
    ensures
        r == is_table_row_spec(line@),
{
    let t = trim_chars(line);
    t.len() > 0 && has_char_exec(&t, '|') && !is_separator_row(&t)
}

/// `str::split` with one character.
pub fn split_char(s: &[char], c: char) -> (r: Vec<Vec<char>>)
    ensures
        r.len() == split_spec(s@, c).len(),
        forall|i: int| 0 <= i < r.len() ==> #[trigger] r[i]@ == split_spec(s@, c)[i],
{
    let mut r: Vec<Vec<char>> = Vec::new();
    let mut pos: usize = 0;
    let ghost mut done: Seq<Seq<char>> = seq![];
    assert(s@.skip(0) == s@);
    loop
        invariant
            pos <= s.len(),
            r.len() == done.len(),
            forall|i: int| 0 <= i < r.len() ==> #[trigger] r[i]@ == done[i],
            split_spec(s@, c) == done + split_spec(s@.skip(pos as int), c),
        decreases s.len() - pos,
    {
        let e = crate::text::find_char_from(s, pos, c);
        let ghost rest = s@.skip(pos as int);
        let mut piece: Vec<char> = Vec::new();
        let mut j = pos;
        while j < e
            invariant
                pos <= j <= e <= s.len(),
                piece@ == s@.subrange(pos as int, j as int),
            decreases e - j,
        {
            piece.push(s[j]);
            j = j + 1;
            assert(piece@ == s@.subrange(pos as int, j as int));
        }
        assert(rest.take(e - pos) == piece@);
        if e < s.len() {
            proof {
                lemma_find_char(rest, c);
                assert(rest.skip(e - pos + 1) == s@.skip(e + 1));
                done = done.push(piece@);
            }
            r.push(piece);
            pos = e + 1;
        } else {
            proof {
                assert(rest == piece@);
                done = done.push(piece@);
                assert(split_spec(s@, c) == done);
            }
            r.push(piece);
            assert forall|i: int| 0 <= i < r.len() implies #[trigger] r[i]@ == split_spec(s@, c)[i] by {}
            return r;
        }
        assert forall|i: int| 0 <= i < r.len() implies #[trigger] r[i]@ == done[i] by {}
    }
}

/// The cells of a pipe-delimited row: `| Sexuality | n/a |` gives
/// `Sexuality` and `n/a`.
pub fn parse_pipe_row(line: &[char]) -> (cells: Vec<String>)
    ensures
        cells.len() == pipe_cells(line@).len(),
        forall|i: int| 0 <= i < cells.len() ==> #[trigger] cells[i]@ == pipe_cells(line@)[i],
{
    let t = trim_chars(line);
    let parts = split_char(&t, '|');
    let ghost ps = split_spec(t@, '|');
    let mut cells: Vec<String> = Vec::new();
    let mut i: usize = 0;
    assert(ps.take(0) == Seq::<Seq<char>>::empty());
    while i < parts.len()
        invariant
            i <= parts.len(),
            parts.len() == ps.len(),
            ps == split_spec(t@, '|'),
            t@ == trim_spec(line@),
            forall|j: int| 0 <= j < parts.len() ==> #[trigger] parts[j]@ == ps[j],
            cells.len() == nonempty_trimmed(ps.take(i as int)).len(),
            forall|j: int| 0 <= j < cells.len() ==> #[trigger] cells[j]@ == nonempty_trimmed(ps.take(i as int))[j],
        decreases parts.len() - i,
    {
        assert(ps.take(i + 1).drop_last() == ps.take(i as int));
        assert(ps.take(i + 1).last() == ps[i as int]);
        let cell = trim_chars(&parts[i]);
        if cell.len() > 0 {
            cells.push(string_of(&cell));
        }
        i = i + 1;
    }
    assert(ps.take(parts.len() as int) == ps);
    cells
}

/// Appends `line` and a newline.
fn push_line(out: &mut String, line: &[char])
    ensures
        final(out)@ == old(out)@ + line@ + seq!['\n'],
{
    let s = string_of(line);
    out.push_str(s.as_str());
    out.push('\n');
    assert(final(out)@ =~= old(out)@ + line@ + seq!['\n']);
}

/// Takes the pipe tables that have no header separator row out of
/// markdown: each run of two or more pipe rows without a separator becomes
/// a placeholder paragraph, and its rows are returned cut into cells.
/// Other lines are kept, each ended by a newline; the final newline is
/// kept only where the markdown had one.
pub fn extract_headerless_tables(md: &str) -> (r: (String, Vec<ExtractedTable>))
    ensures
        r.0@ == extract_tables_spec(md@).0,
        r.1.len() == extract_tables_spec(md@).1.len(),
        forall|i: int| 0 <= i < r.1.len() ==> #[trigger] table_model(r.1[i]) == extract_tables_spec(md@).1[i],
{
    let mdc = chars_of(md);
    let lines = lines_of(&mdc);
    let ghost ls = lines_spec(md@);
    let mut out = String::new();
    let mut tables: Vec<ExtractedTable> = Vec::new();
    let ghost whole = extract_from(ls, 0, 0);
    let mut i: usize = 0;
    assert(out@ + extract_from(ls, 0, 0).0 =~= whole.0);
    assert(Seq::new(tables.len() as nat, |t: int| table_model(tables[t])) + extract_from(ls, 0, 0).1 =~= whole.1);
    while i < lines.len()
        invariant
            i <= lines.len(),
            lines.len() == ls.len(),
            mdc@ == md@,
            ls == lines_spec(md@),
            whole == extract_from(ls, 0, 0),
            forall|j: int| 0 <= j < lines.len() ==> #[trigger] lines[j]@ == ls[j],
            out@ + extract_from(ls, i as int, tables.len() as nat).0 == whole.0,
            Seq::new(tables.len() as nat, |t: int| table_model(tables[t])) + extract_from(ls, i as int, tables.len() as nat).1 == whole.1,
        decreases lines.len() - i,
    {
        let ghost k = tables.len() as nat;
        let ghost tm = Seq::new(tables.len() as nat, |t: int| table_model(tables[t]));
        let line = trim_chars(&lines[i]);
        if !is_table_row(&line) {
            let ghost o = out@;
            push_line(&mut out, &lines[i]);
            assert(out@ + extract_from(ls, i + 1, k).0 =~= o + extract_from(ls, i as int, k).0);
            i = i + 1;
            continue;
        }
        let run_start = i;
        let mut e = i + 1;
        proof { lemma_run_end(ls, i + 1); }
        let mut go = true;
        while go && e < lines.len()
            invariant
                i + 1 <= e <= lines.len(),
                lines.len() == ls.len(),
                forall|j: int| 0 <= j < lines.len() ==> #[trigger] lines[j]@ == ls[j],
                run_end(ls, i + 1) == run_end(ls, e as int),
                !go ==> e < lines.len() && !run_line(ls[e as int]),
            decreases lines.len() - e + (if go { 1int } else { 0int }),
        {
            let next = trim_chars(&lines[e]);
            if is_table_row(&next) || is_separator_row(&next) {
                e = e + 1;
            } else {
                go = false;
            }
        }
        assert(e == run_end(ls, i + 1));
        let mut has = false;
        let mut j = run_start;
        while j < e
            invariant
                run_start <= j <= e <= lines.len(),
                lines.len() == ls.len(),
                forall|m: int| 0 <= m < lines.len() ==> #[trigger] lines[m]@ == ls[m],
                has == has_sep(ls, run_start as int, j as int),
            decreases e - j,
        {
            let t = trim_chars(&lines[j]);
            if is_separator_row(&t) {
                has = true;
            }
            j = j + 1;
            assert(has == has_sep(ls, run_start as int, j as int)) by {
                if has_sep(ls, run_start as int, j as int) && !has_sep(ls, run_start as int, j - 1) {
                    let w = choose|w: int| run_start <= w < j && is_separator_row_spec(#[trigger] trim_spec(ls[w]));
                    assert(w == j - 1);
                }
            }
        }
        let ghost o = out@;
        if has {
            let mut j = run_start;
            assert(emit_lines(ls, run_start as int, run_start as int) == Seq::<char>::empty());
            while j < e
                invariant
                    run_start <= j <= e <= lines.len(),
                    lines.len() == ls.len(),
                    forall|m: int| 0 <= m < lines.len() ==> #[trigger] lines[m]@ == ls[m],
                    out@ == o + emit_lines(ls, run_start as int, j as int),
                decreases e - j,
            {
                push_line(&mut out, &lines[j]);
                j = j + 1;
                assert(out@ =~= o + emit_lines(ls, run_start as int, j as int));
            }
            assert(out@ + extract_from(ls, e as int, k).0 =~= o + extract_from(ls, i as int, k).0);
            i = e;
            continue;
        }
        if e - run_start < 2 {
            push_line(&mut out, &lines[i]);
            assert(out@ + extract_from(ls, i + 1, k).0 =~= o + extract_from(ls, i as int, k).0);
            i = i + 1;
            continue;
        }
        let d = usize_to_string(tables.len());
        let mut ph = String::new();
        ph.push_str("LKTABLEPLACEHOLDER");
        ph.push_str(d.as_str());
        assert(ph@ == placeholder(k));
        let mut rows: Vec<Vec<String>> = Vec::new();
        let mut j = run_start;
        while j < e
            invariant
                run_start <= j <= e <= lines.len(),
                lines.len() == ls.len(),
                forall|m: int| 0 <= m < lines.len() ==> #[trigger] lines[m]@ == ls[m],
                rows.len() == j - run_start,
                forall|m: int| 0 <= m < rows.len() ==> Seq::new(rows[m].len() as nat, |c: int| rows[m][c]@) == #[trigger] pipe_cells(ls[run_start + m]),
            decreases e - j,
        {
            let cells = parse_pipe_row(&lines[j]);
            assert(Seq::new(cells.len() as nat, |c: int| cells[c]@) =~= pipe_cells(ls[j as int]));
            rows.push(cells);
            j = j + 1;
        }
        out.push('\n');
        out.push_str(ph.as_str());
        out.push_str("\n\n");
        let tbl = ExtractedTable { placeholder: ph, rows };
        assert(table_model(tbl) =~= (placeholder(k), run_rows(ls, i as int, e as int))) by {
            assert(Seq::new(tbl.rows.len() as nat, |r: int| Seq::new(tbl.rows[r].len() as nat, |c: int| tbl.rows[r][c]@)) =~= run_rows(ls, i as int, e as int));
        }
        tables.push(tbl);
        proof {
            reveal_strlit("\n\n");
        }
        assert(out@ + extract_from(ls, e as int, k + 1).0 =~= o + extract_from(ls, i as int, k).0);
        assert(Seq::new(tables.len() as nat, |t: int| table_model(tables[t])) + extract_from(ls, e as int, k + 1).1 =~= tm + extract_from(ls, i as int, k).1);
        i = e;
    }
    assert(extract_from(ls, i as int, tables.len() as nat).0 == Seq::<char>::empty());
    assert(out@ =~= whole.0);
    assert(Seq::new(tables.len() as nat, |t: int| table_model(tables[t])) =~= whole.1);
    let ends_nl = mdc.len() > 0 && mdc[mdc.len() - 1] == '\n';
    if !ends_nl {
        let oc = chars_of(out.as_str());
        if oc.len() > 0 && oc[oc.len() - 1] == '\n' {
            let trimmed = crate::text::string_of_range(&oc, 0, oc.len() - 1);
            assert(trimmed@ =~= out@.drop_last());
            return (trimmed, tables);
        }
    }
    (out, tables)
}

} // verus!
