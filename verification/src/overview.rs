//! The `## Overview` section of a project, area or personal page: the one
//! part of a page that only an explicit refresh rewrites.
use crate::text::{
    chars_of, eq_str, is_blank_exec, ends_with, is_blank, join, join_range, lines, lines_nl, lines_of,
    push_all, push_lines_nl, push_str, starts_with, starts_with_str, to_string, trim, trim_exec,
    vv, first_line, skip_blank, count_lines, clean_line, no_cr, lemma_count_add, lemma_count_insert,
    lemma_count_one, lemma_join_nl, lemma_lines_concat, lemma_lines_nl_ends,
    lemma_lines_nl_roundtrip, lemma_first_line_bounds,
};
use crate::text::lemma_lines_one;
use vstd::prelude::*;

verus! {

pub open spec fn overview_heading() -> Seq<char> {
    "## Overview"@
}

/// Scan for the Overview heading. `start` is where the section begins
/// (`offset` after the heading line); the scan stops at the first `## `
/// line after it. A later Overview heading restarts the section.
pub open spec fn overview_scan(ls: Seq<Seq<char>>, i: int, start: Option<int>, offset: int) -> (
    Option<int>,
    int,
)
    decreases ls.len() - i,
{
    if i < 0 || i >= ls.len() {
        (start, ls.len() as int)
    } else if trim(ls[i]) == overview_heading() {
        overview_scan(ls, i + 1, Some(i + offset), offset)
    } else if start is Some && starts_with(ls[i], "## "@) {
        (start, i)
    } else {
        overview_scan(ls, i + 1, start, offset)
    }
}

pub open spec fn spec_extract_overview_body(content: Seq<char>) -> Option<Seq<char>> {
    let ls = lines(content);
    let (st, en) = overview_scan(ls, 0, None, 1);
    match st {
        None => None,
        Some(s) => {
            let b = trim(join(ls.subrange(s, en), "\n"@));
            if b.len() == 0 {
                None
            } else {
                Some(b)
            }
        },
    }
}

pub open spec fn overview_section(body: Seq<char>) -> Seq<char> {
    "## Overview\n\n"@ + body + "\n\n"@
}

/// Where the run of blank lines that ends just before line `s` begins:
/// the page text kept in front of a refreshed section stops there.
pub open spec fn blank_tail(ls: Seq<Seq<char>>, s: int) -> int
    decreases s,
{
    if s > 0 && is_blank(ls[s - 1]) {
        blank_tail(ls, s - 1)
    } else {
        s
    }
}

pub open spec fn spec_replace_overview_section(content: Seq<char>, overview_body: Seq<char>) -> Seq<
    char,
> {
    let body = trim(overview_body);
    let ls = lines(content);
    let section = overview_section(body);
    let (st, en) = overview_scan(ls, 0, None, 0);
    match st {
        Some(s) => {
            let before = join(ls.take(blank_tail(ls, s)), "\n"@);
            let after = join(ls.skip(en), "\n"@);
            (if before.len() > 0 {
                before + "\n\n"@
            } else {
                seq![]
            }) + section + (if after.len() > 0 {
                if ends_with(after, "\n"@) {
                    after
                } else {
                    after + "\n"@
                }
            } else {
                seq![]
            })
        },
        None => match first_line(ls, 0, 0, "# "@) {
            Some(t) => lines_nl(ls.take(t + 1)) + "\n"@ + section + lines_nl(
                ls.skip(skip_blank(ls, t + 1)),
            ),
            None => lines_nl(ls) + section,
        },
    }
}

pub proof fn lemma_overview_scan_bounds(ls: Seq<Seq<char>>, i: int, start: Option<int>, offset: int)
    requires
        0 <= i <= ls.len(),
        0 <= offset <= 1,
        start matches Some(s) ==> 0 <= s <= i,
    ensures
        ({
            let (st, en) = overview_scan(ls, i, start, offset);
            &&& 0 <= en <= ls.len()
            &&& st matches Some(s) ==> 0 <= s <= en
        }),
    decreases ls.len() - i,
{
    if i < ls.len() {
        if trim(ls[i]) == overview_heading() {
            lemma_overview_scan_bounds(ls, i + 1, Some(i + offset), offset);
        } else if start is Some && starts_with(ls[i], "## "@) {
        } else {
            lemma_overview_scan_bounds(ls, i + 1, start, offset);
        }
    }
}

fn overview_bounds(ls: &Vec<Vec<char>>, offset: usize) -> (r: (Option<usize>, usize))
    requires
        offset <= 1,
    ensures
        ({
            let (st, en) = overview_scan(vv(ls@), 0, None, offset as int);
            &&& r.1 == en
            &&& (match r.0 {
                Some(s) => st == Some(s as int),
                None => st is None,
            })
            &&& r.1 <= ls.len()
            &&& r.0 matches Some(s) ==> s <= r.1
        }),
{
    let ghost g = vv(ls@);
    let mut start: Option<usize> = None;
    let mut i: usize = 0;
    proof {
        lemma_overview_scan_bounds(g, 0, None, offset as int);
    }
    while i < ls.len()
        invariant
            g == vv(ls@),
            0 <= i <= ls.len(),
            offset <= 1,
            start matches Some(s) ==> s <= i,
            overview_scan(g, 0, None, offset as int) == overview_scan(
                g,
                i as int,
                match start {
                    Some(s) => Some(s as int),
                    None => None,
                },
                offset as int,
            ),
        decreases ls.len() - i,
    {
        let t = trim_exec(&ls[i]);
        assert(ls@[i as int]@ == g[i as int]);
        if eq_str(&t, "## Overview") {
            start = Some(i + offset);
            i += 1;
            continue;
        }
        if start.is_some() && starts_with_str(&ls[i], "## ") {
            proof {
                lemma_overview_scan_bounds(g, i as int, match start {
                    Some(s) => Some(s as int),
                    None => None,
                }, offset as int);
            }
            return (start, i);
        }
        i += 1;
    }
    (start, ls.len())
}

/// The body under `## Overview` (up to the next `## ` heading), trimmed, if
/// there is one and it is not empty.
pub fn extract_overview_body(content: &str) -> (r: Option<String>)
    ensures
        r matches Some(b) ==> spec_extract_overview_body(content@) == Some(b@),
        r is None ==> spec_extract_overview_body(content@) is None,
{
    let ls = lines_of(content);
    let (st, en) = overview_bounds(&ls, 1);
    let s = match st {
        Some(s) => s,
        None => return None,
    };
    let joined = join_range(&ls, s, en, "\n");
    let b = trim_exec(&joined);
    if b.len() == 0 {
        None
    } else {
        Some(to_string(&b))
    }
}

/// Replace the `## Overview` section body. Creates the section if missing,
/// right after the first `# ` title line (or at the end when there is none).
/// Blank lines just above an existing section collapse to one, so a page
/// refreshed again and again keeps its shape.
pub fn replace_overview_section(content: &str, overview_body: &str) -> (r: String)
    ensures
        r@ == spec_replace_overview_section(content@, overview_body@),
{
    let bc = chars_of(overview_body);
    let body = trim_exec(&bc);
    let ls = lines_of(content);
    let ghost g = vv(ls@);
    let mut section: Vec<char> = Vec::new();
    push_str(&mut section, "## Overview\n\n");
    push_all(&mut section, &body);
    push_str(&mut section, "\n\n");
    let (st, en) = overview_bounds(&ls, 0);
    let mut out: Vec<char> = Vec::new();
    if let Some(s) = st {
        let mut b: usize = s;
        while b > 0 && is_blank_exec(&ls[b - 1])
            invariant
                g == vv(ls@),
                b <= s <= ls.len(),
                blank_tail(g, s as int) == blank_tail(g, b as int),
            decreases b,
        {
            b -= 1;
        }
        let before = join_range(&ls, 0, b, "\n");
        let after = join_range(&ls, en, ls.len(), "\n");
        proof {
            assert(g.subrange(0, b as int) =~= g.take(b as int));
            assert(g.subrange(en as int, ls.len() as int) =~= g.skip(en as int));
        }
        if before.len() > 0 {
            push_all(&mut out, &before);
            push_str(&mut out, "\n\n");
        }
        push_all(&mut out, &section);
        if after.len() > 0 {
            push_all(&mut out, &after);
            if !(after.len() > 0 && after[after.len() - 1] == '\n') {
                push_str(&mut out, "\n");
            }
            proof {
                reveal_strlit("\n");
                let a = after@;
                if a.len() > 0 && a.last() == '\n' {
                    assert(a.skip(a.len() - 1) =~= "\n"@);
                } else {
                    assert(a.skip(a.len() - 1)[0] == a.last());
                    assert("\n"@[0] == '\n');
                    assert(!ends_with(a, "\n"@));
                }
            }
        }
        return to_string(&out);
    }
    let mut t: usize = 0;
    while t < ls.len() && !starts_with_str(&ls[t], "# ")
        invariant
            g == vv(ls@),
            0 <= t <= ls.len(),
            first_line(g, 0, 0, "# "@) == first_line(g, t as int, 0, "# "@),
        decreases ls.len() - t,
    {
        t += 1;
    }
    if t < ls.len() {
        push_lines_nl(&mut out, &ls, 0, t + 1);
        push_str(&mut out, "\n");
        push_all(&mut out, &section);
        let mut j: usize = t + 1;
        while j < ls.len() && is_blank_exec(&ls[j])
            invariant
                g == vv(ls@),
                t + 1 <= j <= ls.len(),
                skip_blank(g, t + 1) == skip_blank(g, j as int),
            decreases ls.len() - j,
        {
            j += 1;
        }
        proof {
            if j < ls.len() {
                assert(!is_blank(g[j as int]));
            }
            assert(g.skip(j as int) =~= g.subrange(j as int, ls.len() as int));
            assert(g.take(t + 1) =~= g.subrange(0, t + 1));
        }
        push_lines_nl(&mut out, &ls, j, ls.len());
    } else {
        proof {
            assert(g =~= g.subrange(0, ls.len() as int));
        }
        push_lines_nl(&mut out, &ls, 0, ls.len());
        push_all(&mut out, &section);
    }
    to_string(&out)
}


// ------------------------------------------------------------------ laws

/// Text whose lines, once split, hold no carriage return: every `\r` in
/// it is the first half of a `\r\n` line end.
pub open spec fn clean_text(s: Seq<char>) -> bool {
    forall|k: int| 0 <= k < lines(s).len() ==> clean_line(#[trigger] lines(s)[k])
}

/// The lines of a page outside its Overview section (heading included in
/// the section): what a refresh must leave alone.
pub open spec fn outside_overview(ls: Seq<Seq<char>>) -> Seq<Seq<char>> {
    match overview_scan(ls, 0, None, 0) {
        (Some(s), en) => ls.take(s) + ls.skip(en),
        (None, _) => ls,
    }
}

/// `join` of clean lines is empty only for no lines or one empty line.
proof fn lemma_join_empty(ls: Seq<Seq<char>>, p: spec_fn(Seq<char>) -> bool)
    requires
        join(ls, "\n"@).len() == 0,
        forall|l: Seq<char>| #[trigger] p(l) ==> !is_blank(l),
    ensures
        count_lines(ls, p) == 0,
{
    reveal_strlit("\n");
    if ls.len() >= 2 {
        assert(join(ls, "\n"@).len() >= 1);
    } else if ls.len() == 1 {
        assert(ls[0].len() == 0);
        assert(trim(ls[0]) =~= ls[0]);
        lemma_count_one(ls[0], p);
        assert(ls =~= seq![ls[0]]);
    }
}

/// What the page keeps of lines `ls` when it writes them joined and, if
/// that is not empty, followed by a line ending.
proof fn lemma_tail_lines(ls: Seq<Seq<char>>, p: spec_fn(Seq<char>) -> bool)
    requires
        forall|k: int| 0 <= k < ls.len() ==> clean_line(#[trigger] ls[k]),
        forall|l: Seq<char>| #[trigger] p(l) ==> !is_blank(l),
        join(ls, "\n"@).len() > 0,
    ensures
        ({
            let a = join(ls, "\n"@);
            let w = if ends_with(a, "\n"@) {
                a
            } else {
                a + "\n"@
            };
            &&& w.last() == '\n'
            &&& count_lines(lines(w), p) == count_lines(ls, p)
        }),
{
    reveal_strlit("\n");
    let a = join(ls, "\n"@);
    lemma_join_nl(ls);
    if ends_with(a, "\n"@) {
        assert(a.last() == '\n') by {
            assert(a.skip(a.len() - 1)[0] == a[a.len() - 1]);
        }
        if ls.len() == 1 {
            assert(a == ls[0]);
            assert(ls[0][ls[0].len() - 1] == '\n');
        }
        assert(ls.len() >= 2);
        let lst = ls.last();
        if lst.len() > 0 {
            assert(a =~= join(ls.drop_last(), "\n"@) + "\n"@ + lst);
            assert(a.last() == lst.last());
            assert(lst[lst.len() - 1] != '\n');
        }
        assert(a =~= join(ls.drop_last(), "\n"@) + "\n"@);
        lemma_join_nl(ls.drop_last());
        lemma_lines_nl_roundtrip(ls.drop_last());
        lemma_count_add(ls.drop_last(), seq![lst], p);
        lemma_count_one(lst, p);
        assert(trim(lst) =~= lst);
        assert(ls.drop_last() + seq![lst] =~= ls);
    } else {
        lemma_lines_nl_roundtrip(ls);
        lemma_lines_nl_ends(ls);
        assert((a + "\n"@).last() == '\n');
    }
}

proof fn lemma_blank_tail(ls: Seq<Seq<char>>, s: int, p: spec_fn(Seq<char>) -> bool)
    requires
        0 <= s <= ls.len(),
        forall|l: Seq<char>| #[trigger] p(l) ==> !is_blank(l),
    ensures
        0 <= blank_tail(ls, s) <= s,
        count_lines(ls.take(blank_tail(ls, s)), p) == count_lines(ls.take(s), p),
    decreases s,
{
    if s > 0 && is_blank(ls[s - 1]) {
        lemma_blank_tail(ls, s - 1, p);
        assert(ls.take(s) =~= ls.take(s - 1) + seq![ls[s - 1]]);
        lemma_count_add(ls.take(s - 1), seq![ls[s - 1]], p);
        lemma_count_one(ls[s - 1], p);
    }
}

proof fn lemma_count_blank_run(ls: Seq<Seq<char>>, j: int, p: spec_fn(Seq<char>) -> bool)
    requires
        0 <= j <= ls.len(),
        forall|l: Seq<char>| #[trigger] p(l) ==> !is_blank(l),
    ensures
        count_lines(ls.take(j) + ls.skip(skip_blank(ls, j)), p) == count_lines(ls, p),
        j <= skip_blank(ls, j) <= ls.len(),
    decreases ls.len() - j,
{
    if j < ls.len() && is_blank(ls[j]) {
        lemma_count_blank_run(ls, j + 1, p);
        lemma_count_insert(ls.take(j) + ls.skip(skip_blank(ls, j)), j, seq![ls[j]], p);
        lemma_count_one(ls[j], p);
        assert((ls.take(j) + ls.skip(skip_blank(ls, j))).take(j) =~= ls.take(j));
        assert((ls.take(j) + ls.skip(skip_blank(ls, j))).skip(j) =~= ls.skip(skip_blank(ls, j)));
        assert(ls.take(j) + seq![ls[j]] + ls.skip(skip_blank(ls, j)) =~= ls.take(j + 1) + ls.skip(
            skip_blank(ls, j + 1),
        ));
    } else {
        assert(ls.take(j) + ls.skip(j) =~= ls);
    }
}

/// Refreshing a page's Overview leaves the rest of the page alone: every
/// non-blank line outside the old Overview section (the dated log, the
/// title, the frontmatter) occurs on the new page at least as often as it
/// did there. Stated for text whose carriage returns all end lines
/// (`\r\n`): a stray `\r` at the end of a line would be read back as a
/// line end.
pub proof fn law_overview_refresh_keeps_the_log(content: Seq<char>, overview_body: Seq<char>, line: Seq<char>)
    requires
        clean_text(content),
        !is_blank(line),
    ensures
        count_lines(
            lines(spec_replace_overview_section(content, overview_body)),
            |l: Seq<char>| l == line,
        ) >= count_lines(outside_overview(lines(content)), |l: Seq<char>| l == line),
{
    reveal_strlit("\n");
    reveal_strlit("\n\n");
    reveal_strlit("## Overview\n\n");
    let p = |l: Seq<char>| l == line;
    let ls = lines(content);
    let body = trim(overview_body);
    let section = overview_section(body);
    assert(section.last() == '\n');
    let (st, en) = overview_scan(ls, 0, None, 0);
    lemma_overview_scan_bounds(ls, 0, None, 0);
    match st {
        Some(s) => {
            let b = blank_tail(ls, s);
            lemma_blank_tail(ls, s, p);
            let before = join(ls.take(b), "\n"@);
            let after = join(ls.skip(en), "\n"@);
            let bpart = if before.len() > 0 {
                before + "\n\n"@
            } else {
                seq![]
            };
            let apart = if after.len() > 0 {
                if ends_with(after, "\n"@) {
                    after
                } else {
                    after + "\n"@
                }
            } else {
                seq![]
            };
            assert(spec_replace_overview_section(content, overview_body) =~= bpart + section + apart);
            // the part before
            if before.len() > 0 {
                let take = ls.take(b);
                assert(take.len() > 0);
                lemma_join_nl(take);
                lemma_lines_nl_roundtrip(take);
                lemma_lines_nl_ends(take);
                assert(bpart =~= lines_nl(take) + "\n"@);
                lemma_lines_concat(lines_nl(take), "\n"@);
                lemma_count_add(take, lines("\n"@), p);
                assert(bpart.last() == '\n');
            } else {
                lemma_join_empty(ls.take(b), p);
            }
            assert(count_lines(lines(bpart), p) >= count_lines(ls.take(b), p));
            // the part after
            if after.len() > 0 {
                lemma_tail_lines(ls.skip(en), p);
            } else {
                lemma_join_empty(ls.skip(en), p);
            }
            assert(count_lines(lines(apart), p) == count_lines(ls.skip(en), p));
            lemma_lines_concat(bpart, section + apart);
            lemma_lines_concat(section, apart);
            assert(bpart + section + apart =~= bpart + (section + apart));
            lemma_count_add(lines(bpart), lines(section) + lines(apart), p);
            lemma_count_add(lines(section), lines(apart), p);
            lemma_count_add(ls.take(s), ls.skip(en), p);
        },
        None => match first_line(ls, 0, 0, "# "@) {
            Some(t) => {
                lemma_first_line_bounds(ls, 0, 0, "# "@);
                let k = skip_blank(ls, t + 1);
                lemma_count_blank_run(ls, t + 1, p);
                let head = ls.take(t + 1);
                let tail = ls.skip(k);
                assert forall|q: int| 0 <= q < head.len() implies clean_line(#[trigger] head[q]) by {
                    assert(head[q] == ls[q]);
                }
                assert forall|q: int| 0 <= q < tail.len() implies clean_line(#[trigger] tail[q]) by {
                    assert(tail[q] == ls[q + k]);
                }
                lemma_lines_nl_roundtrip(head);
                lemma_lines_nl_roundtrip(tail);
                lemma_lines_nl_ends(head);
                let new_page = lines_nl(head) + "\n"@ + section + lines_nl(tail);
                assert(spec_replace_overview_section(content, overview_body) == new_page);
                assert((lines_nl(head) + "\n"@).last() == '\n');
                lemma_lines_concat(lines_nl(head), "\n"@);
                lemma_lines_concat(lines_nl(head) + "\n"@, section + lines_nl(tail));
                lemma_lines_concat(section, lines_nl(tail));
                assert(new_page =~= (lines_nl(head) + "\n"@) + (section + lines_nl(tail)));
                lemma_count_add(head, lines("\n"@), p);
                lemma_count_add(lines(lines_nl(head) + "\n"@), lines(section) + tail, p);
                lemma_count_add(lines(section), tail, p);
                lemma_count_add(head, tail, p);
            },
            None => {
                lemma_lines_nl_roundtrip(ls);
                lemma_lines_nl_ends(ls);
                lemma_lines_concat(lines_nl(ls), section);
                lemma_count_add(ls, lines(section), p);
            },
        },
    }
}


// ------------------------------------------------------------------ reading back what a refresh wrote

/// Lines the section scan passes over: none of them ends the section.
pub open spec fn plain_line(l: Seq<char>) -> bool {
    trim(l) != overview_heading() && !starts_with(l, "## "@)
}

/// The scan runs through these lines without stopping, from a state
/// where a section has (`started`) or has not begun.
pub open spec fn runs_through(xs: Seq<Seq<char>>, started: bool) -> bool
    decreases xs.len(),
{
    if xs.len() == 0 {
        true
    } else if trim(xs[0]) == overview_heading() {
        runs_through(xs.drop_first(), true)
    } else if started && starts_with(xs[0], "## "@) {
        false
    } else {
        runs_through(xs.drop_first(), started)
    }
}

/// Where the section starts after scanning `ls[i..j]` from `start`.
pub open spec fn start_after(ls: Seq<Seq<char>>, i: int, j: int, start: Option<int>, offset: int) -> Option<int>
    decreases j - i,
{
    if i >= j {
        start
    } else if trim(ls[i]) == overview_heading() {
        start_after(ls, i + 1, j, Some(i + offset), offset)
    } else {
        start_after(ls, i + 1, j, start, offset)
    }
}

proof fn lemma_scan_through(ls: Seq<Seq<char>>, i: int, j: int, start: Option<int>, offset: int)
    requires
        0 <= i <= j <= ls.len(),
        runs_through(ls.subrange(i, j), start is Some),
    ensures
        overview_scan(ls, i, start, offset) == overview_scan(ls, j, start_after(ls, i, j, start, offset), offset),
        start is Some ==> start_after(ls, i, j, start, offset) is Some,
    decreases j - i,
{
    if i < j {
        let xs = ls.subrange(i, j);
        assert(xs[0] == ls[i]);
        assert(xs.drop_first() =~= ls.subrange(i + 1, j));
        if trim(ls[i]) == overview_heading() {
            lemma_scan_through(ls, i + 1, j, Some(i + offset), offset);
        } else {
            lemma_scan_through(ls, i + 1, j, start, offset);
        }
    }
}

/// Whether a section has begun after scanning `xs` from `b`.
pub open spec fn started_after(xs: Seq<Seq<char>>, b: bool) -> bool
    decreases xs.len(),
{
    if xs.len() == 0 {
        b
    } else if trim(xs[0]) == overview_heading() {
        started_after(xs.drop_first(), true)
    } else {
        started_after(xs.drop_first(), b)
    }
}

proof fn lemma_runs_through_push(xs: Seq<Seq<char>>, b: bool, l: Seq<char>)
    requires
        runs_through(xs, b),
        trim(l) == overview_heading() || !starts_with(l, "## "@) || !started_after(xs, b),
    ensures
        runs_through(xs.push(l), b),
        started_after(xs.push(l), b) == (trim(l) == overview_heading() || started_after(xs, b)),
    decreases xs.len(),
{
    if xs.len() == 0 {
        assert(xs.push(l) =~= seq![l]);
        assert(seq![l].drop_first() =~= Seq::<Seq<char>>::empty());
        assert(runs_through(Seq::<Seq<char>>::empty(), true));
        assert(runs_through(Seq::<Seq<char>>::empty(), b));
        assert(started_after(Seq::<Seq<char>>::empty(), true));
        assert(started_after(Seq::<Seq<char>>::empty(), b) == b);
    } else {
        assert(xs.push(l).drop_first() =~= xs.drop_first().push(l));
        assert(xs.push(l)[0] == xs[0]);
        if trim(xs[0]) == overview_heading() {
            lemma_runs_through_push(xs.drop_first(), true, l);
        } else {
            lemma_runs_through_push(xs.drop_first(), b, l);
        }
    }
}

proof fn lemma_runs_through_plain(xs: Seq<Seq<char>>, b: bool)
    requires
        forall|k: int| 0 <= k < xs.len() ==> plain_line(#[trigger] xs[k]),
    ensures
        runs_through(xs, b),
    decreases xs.len(),
{
    if xs.len() > 0 {
        assert(plain_line(xs[0]));
        assert forall|k: int| 0 <= k < xs.drop_first().len() implies plain_line(#[trigger] xs.drop_first()[k]) by {
            assert(xs.drop_first()[k] == xs[k + 1]);
        }
        lemma_runs_through_plain(xs.drop_first(), b);
    }
}

proof fn lemma_start_after_plain(xs: Seq<Seq<char>>, i: int, j: int, st: Option<int>, off: int)
    requires
        0 <= i <= j <= xs.len(),
        forall|k: int| i <= k < j ==> plain_line(#[trigger] xs[k]),
    ensures
        start_after(xs, i, j, st, off) == st,
    decreases j - i,
{
    if i < j {
        assert(plain_line(xs[i]));
        lemma_start_after_plain(xs, i + 1, j, st, off);
    }
}

proof fn lemma_runs_through_take(xs: Seq<Seq<char>>, b: bool, k: int)
    requires
        runs_through(xs, b),
        0 <= k <= xs.len(),
    ensures
        runs_through(xs.take(k), b),
    decreases xs.len(),
{
    if k > 0 {
        assert(xs.take(k)[0] == xs[0]);
        assert(xs.take(k).drop_first() =~= xs.drop_first().take(k - 1));
        if trim(xs[0]) == overview_heading() {
            lemma_runs_through_take(xs.drop_first(), true, k - 1);
        } else {
            lemma_runs_through_take(xs.drop_first(), b, k - 1);
        }
    } else {
        assert(xs.take(k) =~= Seq::<Seq<char>>::empty());
    }
}

/// What a scan that found a section tells about the lines it passed.
proof fn lemma_scan_found(ls: Seq<Seq<char>>, i: int, start: Option<int>)
    requires
        0 <= i <= ls.len(),
        runs_through(ls.take(i), false),
        start is None ==> !started_after(ls.take(i), false),
        start matches Some(s0) ==> 0 <= s0 < i && trim(ls[s0]) == overview_heading()
            && runs_through(ls.take(s0), false)
            && forall|k: int| s0 < k < i ==> plain_line(#[trigger] ls[k]),
        overview_scan(ls, i, start, 0).0 is Some,
    ensures
        ({
            let (st, en) = overview_scan(ls, i, start, 0);
            let s = st->0;
            &&& 0 <= s < en <= ls.len()
            &&& trim(ls[s]) == overview_heading()
            &&& runs_through(ls.take(s), false)
            &&& forall|k: int| s < k < en ==> plain_line(#[trigger] ls[k])
            &&& en < ls.len() ==> starts_with(ls[en], "## "@) && trim(ls[en]) != overview_heading()
        }),
    decreases ls.len() - i,
{
    if i < ls.len() {
        assert(ls.take(i + 1) =~= ls.take(i).push(ls[i]));
        if trim(ls[i]) == overview_heading() {
            lemma_runs_through_push(ls.take(i), false, ls[i]);
            lemma_scan_found(ls, i + 1, Some(i));
        } else if start is Some && starts_with(ls[i], "## "@) {
        } else {
            lemma_runs_through_push(ls.take(i), false, ls[i]);
            lemma_scan_found(ls, i + 1, start);
        }
    }
}

/// A scan that found no section passed no Overview heading.
proof fn lemma_scan_none(ls: Seq<Seq<char>>, i: int)
    requires
        0 <= i <= ls.len(),
        overview_scan(ls, i, None, 0).0 is None,
    ensures
        forall|k: int| i <= k < ls.len() ==> trim(#[trigger] ls[k]) != overview_heading(),
    decreases ls.len() - i,
{
    if i < ls.len() {
        if trim(ls[i]) == overview_heading() {
            lemma_scan_some_stays(ls, i + 1, i);
        } else {
            lemma_scan_none(ls, i + 1);
        }
    }
}

proof fn lemma_scan_some_stays(ls: Seq<Seq<char>>, i: int, s: int)
    ensures
        overview_scan(ls, i, Some(s), 0).0 is Some,
    decreases ls.len() - i,
{
    if 0 <= i < ls.len() {
        if trim(ls[i]) == overview_heading() {
            lemma_scan_some_stays(ls, i + 1, i);
        } else if starts_with(ls[i], "## "@) {
        } else {
            lemma_scan_some_stays(ls, i + 1, s);
        }
    }
}

pub proof fn lemma_runs_through_no_heading(xs: Seq<Seq<char>>)
    requires
        forall|k: int| 0 <= k < xs.len() ==> trim(#[trigger] xs[k]) != overview_heading(),
    ensures
        runs_through(xs, false),
        !started_after(xs, false),
    decreases xs.len(),
{
    if xs.len() > 0 {
        assert(trim(xs[0]) != overview_heading());
        assert forall|k: int| 0 <= k < xs.drop_first().len() implies trim(#[trigger] xs.drop_first()[k]) != overview_heading() by {
            assert(xs.drop_first()[k] == xs[k + 1]);
        }
        lemma_runs_through_no_heading(xs.drop_first());
    }
}

proof fn lemma_join_cons(a: Seq<char>, ls: Seq<Seq<char>>)
    requires
        ls.len() > 0,
    ensures
        join(seq![a] + ls, "\n"@) == a + "\n"@ + join(ls, "\n"@),
    decreases ls.len(),
{
    if ls.len() == 1 {
        assert((seq![a] + ls).drop_last() =~= seq![a]);
        assert(join(seq![a], "\n"@) == a);
        assert(join(ls, "\n"@) == ls[0]);
        assert((seq![a] + ls).last() == ls[0]);
    } else {
        lemma_join_cons(a, ls.drop_last());
        assert((seq![a] + ls).drop_last() =~= seq![a] + ls.drop_last());
        assert((seq![a] + ls).last() == ls.last());
    }
}

/// The lines of prose, joined back, are the prose.
proof fn lemma_join_lines(t: Seq<char>)
    requires
        t.len() > 0,
        t.last() != '\n',
        no_cr(t),
    ensures
        join(lines(t), "\n"@) == t,
{
    reveal_strlit("\n");
    crate::text::lemma_lines_nl_lines(t);
    assert(lines(t).len() > 0) by {
        if lines(t).len() == 0 {
            crate::text::lemma_lines_nl_ends(lines(t));
            assert(crate::text::lines_nl(lines(t)) == Seq::<char>::empty());
        }
    }
    lemma_join_nl(lines(t));
    let j = join(lines(t), "\n"@);
    assert(j + "\n"@ == t + seq!['\n']);
    assert(j =~= (j + "\n"@).drop_last());
    assert(t =~= (t + seq!['\n']).drop_last());
}

/// The lines an Overview section is written as.
proof fn lemma_section_lines(tb: Seq<char>)
    requires
        tb.len() > 0,
        tb.last() != '\n',
        no_cr(tb),
    ensures
        lines(overview_section(tb)) == seq!["## Overview"@, Seq::<char>::empty()] + lines(tb) + seq![
            Seq::<char>::empty(),
        ],
        overview_section(tb).last() == '\n',
{
    reveal_strlit("## Overview\n\n");
    reveal_strlit("\n\n");
    reveal_strlit("## Overview");
    let e: Seq<char> = Seq::empty();
    let h = "## Overview"@;
    let sec = overview_section(tb);
    assert(sec =~= (h + seq!['\n']) + (seq!['\n'] + ((tb + seq!['\n']) + seq!['\n'])));
    assert(clean_line(h));
    crate::text::lemma_lines_concat(h + seq!['\n'], seq!['\n'] + ((tb + seq!['\n']) + seq!['\n']));
    crate::text::lemma_lines_one(h);
    crate::text::lemma_lines_concat(seq!['\n'], (tb + seq!['\n']) + seq!['\n']);
    crate::text::lemma_lines_one(e);
    assert(e + seq!['\n'] =~= seq!['\n']);
    crate::text::lemma_lines_concat(tb + seq!['\n'], seq!['\n']);
    crate::text::lemma_lines_nl_tail(tb);
    assert(seq![h] + (seq![e] + (lines(tb) + seq![e])) =~= seq![h, e] + lines(tb) + seq![e]);
}

/// The scan of a page made of lines `p`, then an Overview section, then
/// lines `q` that start (if at all) with a `## ` heading: the section is
/// the one written.
proof fn lemma_scan_written(p: Seq<Seq<char>>, sl: Seq<Seq<char>>, q: Seq<Seq<char>>)
    requires
        runs_through(p, false),
        sl.len() > 0,
        trim(sl[0]) == overview_heading(),
        forall|k: int| 1 <= k < sl.len() ==> plain_line(#[trigger] sl[k]),
        q.len() > 0 ==> starts_with(q[0], "## "@) && trim(q[0]) != overview_heading(),
    ensures
        overview_scan(p + sl + q, 0, None, 1) == (Some(p.len() + 1int), p.len() + sl.len() as int),
{
    let n = p + sl + q;
    let a = p.len() as int;
    let e = a + sl.len();
    assert(n.subrange(0, a) =~= p);
    lemma_scan_through(n, 0, a, None, 1);
    let st1 = start_after(n, 0, a, None, 1);
    assert(n[a] == sl[0]);
    assert(overview_scan(n, a, st1, 1) == overview_scan(n, a + 1, Some(a + 1), 1));
    assert forall|k: int| 0 <= k < n.subrange(a + 1, e).len() implies plain_line(#[trigger] n.subrange(a + 1, e)[k]) by {
        assert(n.subrange(a + 1, e)[k] == sl[k + 1]);
    }
    lemma_runs_through_plain(n.subrange(a + 1, e), true);
    lemma_scan_through(n, a + 1, e, Some(a + 1), 1);
    assert forall|k: int| a + 1 <= k < e implies plain_line(#[trigger] n[k]) by {
        assert(n[k] == sl[k - a]);
    }
    lemma_start_after_plain(n, a + 1, e, Some(a + 1), 1);
    if q.len() > 0 {
        assert(n[e] == q[0]);
    } else {
        assert(n.len() == e);
    }
}

/// The lines a page ends with when lines `ls` are written joined and, if
/// that is not empty, given a final line ending.
proof fn lemma_tail_exact(ls: Seq<Seq<char>>)
    requires
        forall|k: int| 0 <= k < ls.len() ==> clean_line(#[trigger] ls[k]),
        join(ls, "\n"@).len() > 0,
    ensures
        ({
            let a = join(ls, "\n"@);
            let w = if ends_with(a, "\n"@) {
                a
            } else {
                a + "\n"@
            };
            &&& w.last() == '\n'
            &&& ls.len() > 0
            &&& lines(w).len() > 0 && lines(w)[0] == ls[0]
        }),
{
    reveal_strlit("\n");
    let a = join(ls, "\n"@);
    if ls.len() == 0 {
        assert(a.len() == 0);
    }
    lemma_join_nl(ls);
    if ends_with(a, "\n"@) {
        assert(a.last() == '\n') by {
            assert(a.skip(a.len() - 1)[0] == a[a.len() - 1]);
        }
        if ls.len() == 1 {
            assert(a == ls[0]);
            assert(ls[0][ls[0].len() - 1] == '\n');
        }
        let lst = ls.last();
        if lst.len() > 0 {
            assert(a =~= join(ls.drop_last(), "\n"@) + "\n"@ + lst);
            assert(a.last() == lst.last());
            assert(lst[lst.len() - 1] != '\n');
        }
        assert(a =~= join(ls.drop_last(), "\n"@) + "\n"@);
        lemma_join_nl(ls.drop_last());
        assert forall|k: int| 0 <= k < ls.drop_last().len() implies clean_line(#[trigger] ls.drop_last()[k]) by {
            assert(ls.drop_last()[k] == ls[k]);
        }
        lemma_lines_nl_roundtrip(ls.drop_last());
        assert(lines(a) == ls.drop_last());
        assert(ls.drop_last()[0] == ls[0]);
    } else {
        lemma_lines_nl_roundtrip(ls);
        lemma_lines_nl_ends(ls);
    }
}

/// Whether a refresh of this page writes its Overview where it will be read
/// back whole: the page has an Overview, or no title, or nothing but a `## `
/// heading after its title.
pub open spec fn overview_lands_whole(ls: Seq<Seq<char>>) -> bool {
    overview_scan(ls, 0, None, 0).0 is Some || match first_line(ls, 0, 0, "# "@) {
        None => true,
        Some(t) => skip_blank(ls, t + 1) >= ls.len() || starts_with(ls[skip_blank(ls, t + 1)], "## "@),
    }
}

/// Trimming text without carriage returns leaves none.
pub proof fn lemma_trim_keeps_no_cr(s: Seq<char>)
    requires
        no_cr(s),
    ensures
        no_cr(trim(s)),
{
    crate::text::lemma_trim_start_is_skip(s);
    crate::text::lemma_trim_end_edges(crate::text::trim_start(s));
    let k = choose|k: int| 0 <= k <= s.len() && crate::text::trim_start(s) == s.skip(k);
    assert forall|j: int| 0 <= j < trim(s).len() implies trim(s)[j] != '\r' by {
        assert(trim(s)[j] == s[j + k]);
    }
}

/// A trimmed, non-blank body without carriage returns, as the section
/// writes it.
pub proof fn lemma_body_prepared(overview_body: Seq<char>)
    requires
        no_cr(trim(overview_body)),
        !is_blank(overview_body),
    ensures
        trim(overview_body).len() > 0,
        trim(overview_body).last() != '\n',
        no_cr(trim(overview_body)),
        trim(trim(overview_body)) == trim(overview_body),
        !crate::text::is_ws(trim(overview_body)[0]),
        !crate::text::is_ws(trim(overview_body).last()),
{
    let tb = trim(overview_body);
    crate::text::lemma_trim_idempotent(overview_body);
    assert(!crate::text::is_ws(tb.last())) by {
        if crate::text::is_ws(tb.last()) {
            assert(crate::text::trim_end(tb) == crate::text::trim_end(tb.drop_last()));
            crate::text::lemma_trim_end_edges(tb.drop_last());
        }
    }
    assert(!crate::text::is_ws(tb[0])) by {
        if crate::text::is_ws(tb[0]) {
            assert(crate::text::trim_start(tb) == crate::text::trim_start(tb.drop_first()));
            crate::text::lemma_trim_start_edges(tb.drop_first());
        }
    }
}

/// The written section's lines: its heading, then lines the scan passes.
pub proof fn lemma_section_scannable(tb: Seq<char>)
    requires
        tb.len() > 0,
        tb.last() != '\n',
        no_cr(tb),
        forall|k: int| 0 <= k < lines(tb).len() ==> plain_line(#[trigger] lines(tb)[k]),
    ensures
        lines(overview_section(tb)).len() > 0,
        trim(lines(overview_section(tb))[0]) == overview_heading(),
        forall|k: int| 1 <= k < lines(overview_section(tb)).len() ==> plain_line(#[trigger] lines(overview_section(tb))[k]),
        overview_section(tb).last() == '\n',
{
    reveal_strlit("## ");
    reveal_strlit("## Overview");
    let e: Seq<char> = Seq::empty();
    lemma_section_lines(tb);
    let sl = lines(overview_section(tb));
    assert(sl[0] == "## Overview"@);
    crate::text::lemma_trim_noop("## Overview"@);
    assert forall|k: int| 1 <= k < sl.len() implies plain_line(#[trigger] sl[k]) by {
        if k == 1 || k == sl.len() - 1 {
            assert(sl[k] == e);
            assert(trim(e) =~= e);
        } else {
            assert(sl[k] == lines(tb)[k - 2]);
            assert(plain_line(lines(tb)[k - 2]));
        }
    }
}

/// What a refresh writes in front of the section, given the page's lines
/// before it: those lines without the blank ones at their end, and a
/// blank line.
pub open spec fn refresh_front(p: Seq<Seq<char>>) -> Seq<char> {
    let before = join(p.take(blank_tail(p, p.len() as int)), "\n"@);
    if before.len() > 0 {
        before + "\n\n"@
    } else {
        seq![]
    }
}

/// What a refresh writes after the section, given the page's lines after
/// it: those lines, ended.
pub open spec fn refresh_back(q: Seq<Seq<char>>) -> Seq<char> {
    let after = join(q, "\n"@);
    if after.len() > 0 {
        if ends_with(after, "\n"@) {
            after
        } else {
            after + "\n"@
        }
    } else {
        seq![]
    }
}

proof fn lemma_blank_tail_prefix(ls: Seq<Seq<char>>, s: int)
    requires
        0 <= s <= ls.len(),
    ensures
        blank_tail(ls.take(s), s) == blank_tail(ls, s),
        0 <= blank_tail(ls, s) <= s,
        blank_tail(ls, s) > 0 ==> !is_blank(ls[blank_tail(ls, s) - 1]),
    decreases s,
{
    if s > 0 && is_blank(ls[s - 1]) {
        assert(ls.take(s)[s - 1] == ls[s - 1]);
        lemma_blank_tail_prefix(ls, s - 1);
        lemma_blank_tail_same(ls.take(s), ls.take(s - 1), s - 1);
    } else if s > 0 {
        assert(ls.take(s)[s - 1] == ls[s - 1]);
    }
}

proof fn lemma_blank_tail_same(a: Seq<Seq<char>>, b: Seq<Seq<char>>, s: int)
    requires
        0 <= s <= a.len(),
        s <= b.len(),
        forall|k: int| 0 <= k < s ==> a[k] == b[k],
    ensures
        blank_tail(a, s) == blank_tail(b, s),
    decreases s,
{
    if s > 0 {
        assert(a[s - 1] == b[s - 1]);
        lemma_blank_tail_same(a, b, s - 1);
    }
}

/// A refresh of a page with an Overview writes the front of the page
/// before it, the new section, and the back of the page after it.
proof fn lemma_refresh_found(content: Seq<char>, overview_body: Seq<char>)
    requires
        overview_scan(lines(content), 0, None, 0).0 is Some,
    ensures
        ({
            let ls = lines(content);
            let (st, en) = overview_scan(ls, 0, None, 0);
            spec_replace_overview_section(content, overview_body) == refresh_front(ls.take(st->0))
                + overview_section(trim(overview_body)) + refresh_back(ls.skip(en))
        }),
{
    let ls = lines(content);
    let (st, en) = overview_scan(ls, 0, None, 0);
    let s = st->0;
    lemma_overview_scan_bounds(ls, 0, None, 0);
    lemma_blank_tail_prefix(ls, s);
    let b = blank_tail(ls, s);
    assert(ls.take(s).len() == s);
    assert(ls.take(s).take(b) =~= ls.take(b));
}

/// A page that had an Overview, refreshed: what came before it, the new
/// section, and what followed it.
proof fn lemma_parts_found(content: Seq<char>, tb: Seq<char>) -> (pq: (Seq<Seq<char>>, Seq<Seq<char>>))
    requires
        clean_text(content),
        overview_scan(lines(content), 0, None, 0).0 is Some,
        overview_section(tb).last() == '\n',
        trim(tb) == tb,
    ensures
        lines(spec_replace_overview_section(content, tb)) == pq.0 + lines(overview_section(tb)) + pq.1,
        runs_through(pq.0, false),
        pq.1.len() > 0 ==> starts_with(pq.1[0], "## "@) && trim(pq.1[0]) != overview_heading(),
        lines(content).len() == 0 || lines(content).last().len() > 0 ==> refresh_front(pq.0)
            + overview_section(tb) + refresh_back(pq.1) == spec_replace_overview_section(content, tb),
{
    reveal_strlit("\n");
    reveal_strlit("\n\n");
    reveal_strlit("## ");
    reveal_strlit("## Overview");
    let e: Seq<char> = Seq::empty();
    let ls = lines(content);
    let section = overview_section(tb);
    let (st, en) = overview_scan(ls, 0, None, 0);
    lemma_overview_scan_bounds(ls, 0, None, 0);
    let s = st->0;
    assert(ls.take(0) =~= Seq::<Seq<char>>::empty());
    lemma_scan_found(ls, 0, None);
    let b = blank_tail(ls, s);
    lemma_blank_tail(ls, s, |l: Seq<char>| false);
    lemma_runs_through_take(ls.take(s), false, b);
    assert(ls.take(s).take(b) =~= ls.take(b));
    let before = join(ls.take(b), "\n"@);
    let after = join(ls.skip(en), "\n"@);
    let bpart = if before.len() > 0 {
        before + "\n\n"@
    } else {
        seq![]
    };
    let apart = if after.len() > 0 {
        if ends_with(after, "\n"@) {
            after
        } else {
            after + "\n"@
        }
    } else {
        seq![]
    };
    let new_page = spec_replace_overview_section(content, tb);
    assert(new_page =~= bpart + section + apart);
    let p: Seq<Seq<char>>;
    let q: Seq<Seq<char>>;
    if before.len() > 0 {
        let take = ls.take(b);
        lemma_join_nl(take);
        assert forall|k: int| 0 <= k < take.len() implies clean_line(#[trigger] take[k]) by {
            assert(take[k] == ls[k]);
        }
        lemma_lines_nl_roundtrip(take);
        lemma_lines_nl_ends(take);
        assert(bpart =~= crate::text::lines_nl(take) + "\n"@);
        lemma_lines_concat(crate::text::lines_nl(take), "\n"@);
        lemma_lines_one(e);
        assert(e + seq!['\n'] =~= "\n"@);
        p = take + seq![e];
        assert(lines(bpart) == p);
        lemma_runs_through_push(take, false, e);
        assert(take.push(e) =~= p);
        assert(bpart.last() == '\n');
        // the front written again is the same
        lemma_blank_tail_prefix(ls, s);
        assert(b > 0) by {
            if b == 0 {
                assert(take =~= Seq::<Seq<char>>::empty());
            }
        }
        assert(p[b - 1] == ls[b - 1]);
        assert(is_blank(e)) by {
            assert(trim(e).len() == 0);
        }
        assert(blank_tail(p, b) == b);
        assert(blank_tail(p, p.len() as int) == b);
        assert(p.take(b) =~= take);
        assert(refresh_front(p) == bpart);
    } else {
        p = seq![];
        assert(lines(bpart) == p);
        assert(p.take(0) =~= Seq::<Seq<char>>::empty());
        assert(refresh_front(p) == bpart);
    }
    if after.len() > 0 {
        let tail = ls.skip(en);
        assert forall|k: int| 0 <= k < tail.len() implies clean_line(#[trigger] tail[k]) by {
            assert(tail[k] == ls[k + en]);
        }
        lemma_tail_exact(tail);
        q = lines(apart);
        assert(q[0] == ls[en]);
        if ls.len() == 0 || ls.last().len() > 0 {
            // a page that does not end in a blank line: the back is exactly
            // the lines after the section, ended
            assert(tail.len() > 0) by {
                if tail.len() == 0 {
                    assert(after == join(tail, "\n"@));
                }
            }
            assert(tail.last() == ls.last());
            lemma_join_nl(tail);
            let lst = tail.last();
            assert(tail =~= tail.drop_last().push(lst));
            assert(crate::text::lines_nl(tail) == crate::text::lines_nl(tail.drop_last()) + lst + seq!['\n']);
            let front = crate::text::lines_nl(tail.drop_last()) + lst;
            assert(after.len() == front.len());
            assert(after =~= (after + "\n"@).take(after.len() as int));
            assert(front =~= (front + seq!['\n']).take(after.len() as int));
            assert(after == front);
            assert(clean_line(tail[tail.len() - 1]));
            assert(after.last() == lst.last());
            assert(!ends_with(after, "\n"@)) by {
                if ends_with(after, "\n"@) {
                    assert(after.skip(after.len() - 1)[0] == after.last());
                }
            }
            assert(apart == crate::text::lines_nl(tail));
            lemma_lines_nl_roundtrip(tail);
            assert(q == tail);
            assert(refresh_back(q) == apart);
        }
    } else {
        q = seq![];
        assert(lines(apart) == q);
        assert(refresh_back(q) == apart);
    }
    lemma_lines_concat(bpart, section + apart);
    lemma_lines_concat(section, apart);
    assert(bpart + section + apart =~= bpart + (section + apart));
    assert(lines(new_page) =~= p + lines(section) + q);
    (p, q)
}

/// The lines of `head`, a blank line, a section and `tail`, written out.
proof fn lemma_lines_around(head: Seq<Seq<char>>, section: Seq<char>, tail: Seq<Seq<char>>)
    requires
        forall|j: int| 0 <= j < head.len() ==> clean_line(#[trigger] head[j]),
        forall|j: int| 0 <= j < tail.len() ==> clean_line(#[trigger] tail[j]),
        section.last() == '\n',
    ensures
        lines(crate::text::lines_nl(head) + "\n"@ + section + crate::text::lines_nl(tail))
            == head + seq![Seq::<char>::empty()] + lines(section) + tail,
{
    reveal_strlit("\n");
    let e: Seq<char> = Seq::empty();
    let hn = crate::text::lines_nl(head);
    let tn = crate::text::lines_nl(tail);
    lemma_lines_nl_roundtrip(head);
    lemma_lines_nl_roundtrip(tail);
    lemma_lines_nl_ends(head);
    lemma_lines_concat(hn, "\n"@);
    lemma_lines_concat(hn + "\n"@, section + tn);
    lemma_lines_concat(section, tn);
    lemma_lines_one(e);
    assert(e + seq!['\n'] =~= "\n"@);
    assert(hn + "\n"@ + section + tn =~= (hn + "\n"@) + (section + tn));
}

/// A titled page without an Overview, refreshed: the new section goes
/// under the title.
proof fn lemma_parts_titled(content: Seq<char>, tb: Seq<char>, t: int) -> (pq: (Seq<Seq<char>>, Seq<Seq<char>>))
    requires
        clean_text(content),
        overview_scan(lines(content), 0, None, 0).0 is None,
        first_line(lines(content), 0, 0, "# "@) == Some(t),
        overview_lands_whole(lines(content)),
        overview_section(tb).last() == '\n',
        trim(tb) == tb,
    ensures
        lines(spec_replace_overview_section(content, tb)) == pq.0 + lines(overview_section(tb)) + pq.1,
        runs_through(pq.0, false),
        pq.1.len() > 0 ==> starts_with(pq.1[0], "## "@) && trim(pq.1[0]) != overview_heading(),
        lines(content).len() == 0 || lines(content).last().len() > 0 ==> refresh_front(pq.0)
            + overview_section(tb) + refresh_back(pq.1) == spec_replace_overview_section(content, tb),
{
    reveal_strlit("## ");
    reveal_strlit("# ");
    reveal_strlit("\n");
    reveal_strlit("\n\n");
    let e: Seq<char> = Seq::empty();
    let ls = lines(content);
    lemma_scan_none(ls, 0);
    lemma_first_line_bounds(ls, 0, 0, "# "@);
    let k = skip_blank(ls, t + 1);
    crate::text::lemma_skip_blank_bounds(ls, t + 1);
    let head = ls.take(t + 1);
    let tail = ls.skip(k);
    assert forall|j: int| 0 <= j < head.len() implies clean_line(#[trigger] head[j]) by {
        assert(head[j] == ls[j]);
    }
    assert forall|j: int| 0 <= j < tail.len() implies clean_line(#[trigger] tail[j]) by {
        assert(tail[j] == ls[j + k]);
    }
    let section = overview_section(tb);
    assert(spec_replace_overview_section(content, tb) == crate::text::lines_nl(head) + "\n"@ + section
        + crate::text::lines_nl(tail));
    lemma_lines_around(head, section, tail);
    let p = head + seq![e];
    let q = tail;
    assert forall|j: int| 0 <= j < head.len() implies trim(#[trigger] head[j]) != overview_heading() by {
        assert(head[j] == ls[j]);
    }
    lemma_runs_through_no_heading(head);
    lemma_runs_through_push(head, false, e);
    assert(head.push(e) =~= p);
    if q.len() > 0 {
        assert(q[0] == ls[k]);
    }
    // the front written again: the head, whose last line is the title
    crate::text::lemma_first_line_found(ls, 0, 0, "# "@);
    assert(crate::text::line_test(ls[t], 0, "# "@));
    assert(ls[t].take(2) == "# "@);
    assert(ls[t].take(2)[0] == ls[t][0]);
    assert(ls[t][0] == '#');
    crate::text::lemma_solid_line(ls[t]);
    assert(head[t] == ls[t]);
    assert(is_blank(e)) by {
        assert(trim(e).len() == 0);
    }
    assert(p[t] == ls[t]);
    assert(blank_tail(p, t + 1) == t + 1);
    assert(blank_tail(p, p.len() as int) == t + 1);
    assert(p.take(t + 1) =~= head);
    lemma_join_nl(head);
    assert(join(head, "\n"@).len() > 0) by {
        if join(head, "\n"@).len() == 0 {
            assert(crate::text::lines_nl(head) =~= "\n"@);
            assert(head =~= head.drop_last().push(head.last()));
            assert(crate::text::lines_nl(head) == crate::text::lines_nl(head.drop_last()) + head.last()
                + seq!['\n']);
        }
    }
    assert(refresh_front(p) =~= crate::text::lines_nl(head) + "\n"@);
    if ls.len() == 0 || ls.last().len() > 0 {
        if tail.len() > 0 {
            assert(tail.last() == ls.last());
            lemma_join_nl(tail);
            let lst = tail.last();
            assert(tail =~= tail.drop_last().push(lst));
            assert(crate::text::lines_nl(tail) == crate::text::lines_nl(tail.drop_last()) + lst + seq!['\n']);
            let after = join(tail, "\n"@);
            let front = crate::text::lines_nl(tail.drop_last()) + lst;
            assert(after.len() == front.len());
            assert(after =~= (after + "\n"@).take(after.len() as int));
            assert(front =~= (front + seq!['\n']).take(after.len() as int));
            assert(after == front);
            assert(clean_line(tail[tail.len() - 1]));
            assert(after.last() == lst.last());
            assert(!ends_with(after, "\n"@)) by {
                if ends_with(after, "\n"@) {
                    assert(after.skip(after.len() - 1)[0] == after.last());
                }
            }
            assert(refresh_back(q) == crate::text::lines_nl(tail));
        } else {
            assert(crate::text::lines_nl(tail) == Seq::<char>::empty());
            assert(refresh_back(q) == Seq::<char>::empty());
        }
        assert(refresh_front(p) + section + refresh_back(q) =~= crate::text::lines_nl(head) + "\n"@ + section
            + crate::text::lines_nl(tail));
    }
    (p, q)
}

/// A page with neither an Overview nor a title, refreshed: the new section
/// goes at the end.
proof fn lemma_parts_bare(content: Seq<char>, tb: Seq<char>) -> (pq: (Seq<Seq<char>>, Seq<Seq<char>>))
    requires
        clean_text(content),
        overview_scan(lines(content), 0, None, 0).0 is None,
        first_line(lines(content), 0, 0, "# "@) is None,
        overview_section(tb).last() == '\n',
        trim(tb) == tb,
    ensures
        lines(spec_replace_overview_section(content, tb)) == pq.0 + lines(overview_section(tb)) + pq.1,
        runs_through(pq.0, false),
        pq.1.len() == 0,
{
    let ls = lines(content);
    lemma_scan_none(ls, 0);
    let section = overview_section(tb);
    assert(spec_replace_overview_section(content, tb) == crate::text::lines_nl(ls) + section);
    lemma_lines_nl_roundtrip(ls);
    lemma_lines_nl_ends(ls);
    lemma_lines_concat(crate::text::lines_nl(ls), section);
    let q: Seq<Seq<char>> = seq![];
    assert(lines(spec_replace_overview_section(content, tb)) =~= ls + lines(section) + q);
    lemma_runs_through_no_heading(ls);
    (ls, q)
}

/// Reading the section back from a page laid out as `p`, the section, `q`.
pub proof fn lemma_extract_written(p: Seq<Seq<char>>, q: Seq<Seq<char>>, tb: Seq<char>)
    requires
        tb.len() > 0,
        tb.last() != '\n',
        no_cr(tb),
        !crate::text::is_ws(tb[0]),
        !crate::text::is_ws(tb.last()),
        runs_through(p, false),
        q.len() > 0 ==> starts_with(q[0], "## "@) && trim(q[0]) != overview_heading(),
        lines(overview_section(tb)).len() > 0,
        trim(lines(overview_section(tb))[0]) == overview_heading(),
        forall|k: int| 1 <= k < lines(overview_section(tb)).len() ==> plain_line(#[trigger] lines(overview_section(tb))[k]),
    ensures
        ({
            let n = p + lines(overview_section(tb)) + q;
            let (st, en) = overview_scan(n, 0, None, 1);
            &&& st == Some(p.len() + 1int)
            &&& trim(join(n.subrange(p.len() + 1int, en), "\n"@)) == tb
        }),
{
    reveal_strlit("\n");
    let e: Seq<char> = Seq::empty();
    let sl = lines(overview_section(tb));
    lemma_section_lines(tb);
    lemma_scan_written(p, sl, q);
    let n = p + sl + q;
    let a = p.len() as int;
    let sub = n.subrange(a + 1, a + sl.len());
    assert(sub =~= seq![e] + lines(tb) + seq![e]);
    lemma_join_lines(tb);
    assert(lines(tb).len() > 0) by {
        if lines(tb).len() == 0 {
            assert(join(lines(tb), "\n"@) == Seq::<char>::empty());
        }
    }
    lemma_join_cons(e, lines(tb) + seq![e]);
    assert(join(lines(tb) + seq![e], "\n"@) == join(lines(tb), "\n"@) + "\n"@ + e) by {
        assert((lines(tb) + seq![e]).drop_last() =~= lines(tb));
        assert((lines(tb) + seq![e]).last() == e);
    }
    assert(seq![e] + (lines(tb) + seq![e]) =~= sub);
    let j = join(sub, "\n"@);
    assert(j =~= seq!['\n'] + tb + seq!['\n']);
    assert(crate::text::trim_start(j) == crate::text::trim_start(j.drop_first()));
    assert(j.drop_first() =~= tb + seq!['\n']);
    crate::text::lemma_trim_noop(tb);
    assert(crate::text::trim_start(tb + seq!['\n']) == tb + seq!['\n']) by {
        assert((tb + seq!['\n'])[0] == tb[0]);
    }
    assert(crate::text::trim_end(tb + seq!['\n']) == crate::text::trim_end(tb)) by {
        assert((tb + seq!['\n']).drop_last() =~= tb);
    }
}

/// What a refresh writes as the Overview is what is read back as the
/// Overview: the body, trimmed. It holds for a page whose carriage returns
/// all end lines (`\r\n`) and a trimmed body without them (reading
/// `\r\n` back gives `\n`) that has no line that would end or restart
/// the section (a `## ` line or an Overview heading), on pages that have
/// an Overview already, or no title, or a `## ` heading right under the
/// title; on a page with prose directly under its title the new section
/// would run on into that prose.
pub proof fn law_overview_reads_back(content: Seq<char>, overview_body: Seq<char>)
    requires
        clean_text(content),
        no_cr(trim(overview_body)),
        !is_blank(overview_body),
        forall|k: int| 0 <= k < lines(trim(overview_body)).len() ==> plain_line(#[trigger] lines(trim(overview_body))[k]),
        overview_lands_whole(lines(content)),
    ensures
        spec_extract_overview_body(spec_replace_overview_section(content, overview_body)) == Some(trim(overview_body)),
{
    let tb = trim(overview_body);
    lemma_body_prepared(overview_body);
    lemma_section_scannable(tb);
    assert(spec_replace_overview_section(content, overview_body) == spec_replace_overview_section(content, tb));
    let pq = if overview_scan(lines(content), 0, None, 0).0 is Some {
        lemma_parts_found(content, tb)
    } else if let Some(t) = first_line(lines(content), 0, 0, "# "@) {
        lemma_parts_titled(content, tb, t)
    } else {
        lemma_parts_bare(content, tb)
    };
    lemma_extract_written(pq.0, pq.1, tb);
}


/// A refresh scans a page it wrote to the section it wrote.
proof fn lemma_scan_rewritten(p: Seq<Seq<char>>, sl: Seq<Seq<char>>, q: Seq<Seq<char>>)
    requires
        runs_through(p, false),
        sl.len() > 0,
        trim(sl[0]) == overview_heading(),
        forall|k: int| 1 <= k < sl.len() ==> plain_line(#[trigger] sl[k]),
        q.len() > 0 ==> starts_with(q[0], "## "@) && trim(q[0]) != overview_heading(),
    ensures
        overview_scan(p + sl + q, 0, None, 0) == (Some(p.len() as int), p.len() + sl.len() as int),
{
    let n = p + sl + q;
    let a = p.len() as int;
    let e = a + sl.len();
    assert(n.subrange(0, a) =~= p);
    lemma_scan_through(n, 0, a, None, 0);
    let st1 = start_after(n, 0, a, None, 0);
    assert(n[a] == sl[0]);
    assert(overview_scan(n, a, st1, 0) == overview_scan(n, a + 1, Some(a), 0));
    assert forall|k: int| 0 <= k < n.subrange(a + 1, e).len() implies plain_line(#[trigger] n.subrange(a + 1, e)[k]) by {
        assert(n.subrange(a + 1, e)[k] == sl[k + 1]);
    }
    lemma_runs_through_plain(n.subrange(a + 1, e), true);
    lemma_scan_through(n, a + 1, e, Some(a), 0);
    assert forall|k: int| a + 1 <= k < e implies plain_line(#[trigger] n[k]) by {
        assert(n[k] == sl[k - a]);
    }
    lemma_start_after_plain(n, a + 1, e, Some(a), 0);
    if q.len() > 0 {
        assert(n[e] == q[0]);
    } else {
        assert(n.len() == e);
    }
}

/// Refreshing the Overview a second time with the same body changes
/// nothing. It holds on the terms of `law_overview_reads_back`, for a page
/// that has an Overview or a `# ` title and does not end in a blank line
/// (a page with neither gets its section at the end, and the blank line a
/// second refresh puts above it is new).
pub proof fn law_overview_refresh_settles(content: Seq<char>, overview_body: Seq<char>)
    requires
        clean_text(content),
        no_cr(trim(overview_body)),
        !is_blank(overview_body),
        forall|k: int| 0 <= k < lines(trim(overview_body)).len() ==> plain_line(#[trigger] lines(trim(overview_body))[k]),
        overview_lands_whole(lines(content)),
        overview_scan(lines(content), 0, None, 0).0 is Some || first_line(lines(content), 0, 0, "# "@) is Some,
        lines(content).len() == 0 || lines(content).last().len() > 0,
    ensures
        spec_replace_overview_section(spec_replace_overview_section(content, overview_body), overview_body)
            == spec_replace_overview_section(content, overview_body),
{
    let tb = trim(overview_body);
    lemma_body_prepared(overview_body);
    lemma_section_scannable(tb);
    assert(spec_replace_overview_section(content, overview_body) == spec_replace_overview_section(content, tb));
    let pq = if overview_scan(lines(content), 0, None, 0).0 is Some {
        lemma_parts_found(content, tb)
    } else {
        let t = first_line(lines(content), 0, 0, "# "@)->0;
        lemma_parts_titled(content, tb, t)
    };
    let r = spec_replace_overview_section(content, tb);
    let sl = lines(overview_section(tb));
    let n = lines(r);
    assert(n == pq.0 + sl + pq.1);
    lemma_scan_rewritten(pq.0, sl, pq.1);
    lemma_refresh_found(r, overview_body);
    assert(n.take(pq.0.len() as int) =~= pq.0);
    assert(n.skip((pq.0.len() + sl.len()) as int) =~= pq.1);
}

} // verus!
