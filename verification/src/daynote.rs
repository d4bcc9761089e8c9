//! The day note (`days/YYYY-MM-DD.md`): a generated view over the day's
//! captures that may also hold hand-written text. Each capture owns its
//! glance line(s) and one `## time · \`id\` · title` section; refreshing a
//! capture splices only those, so everything else on the page survives.
use crate::text::{
    chars_of, copy, ends_with, find, first_line, first_line_exec, is_blank, is_blank_exec, join,
    join_exec, lines, lines_of, push_all, push_line, push_lines, push_str, skip_blank,
    skip_blank_exec, slice_of, split_lines, split_once, split_once_str, starts_with,
    starts_with_exec, starts_with_str, strip_prefix_str, to_string, trim, trim_exec, trim_start,
    vv, line_test_exec,
};
use crate::calendar::{naive_date_parse, pat_iso};
use crate::overview::blank_tail;
use crate::datetime::{format_date, format_time, spec_format_date, spec_format_time, valid_date};
use crate::text::{lemma_solid_line, lemma_trim_end_keeps, lemma_first_line_bounds, lemma_skip_blank_bounds, count_lines, lemma_count_add, lemma_count_insert, lemma_count_one, lemma_count_remove, lemma_count_two, take_chars, take_chars_exec, is_ws, line_test, trim_end, lemma_trim_end_edges, lemma_trim_start_edges, lemma_find_props, lines_nl, clean_line, no_cr, lemma_lines_nl_roundtrip, lemma_lines_nl_lines, lemma_join_nl, lemma_lines_clean};
use vstd::prelude::*;

verus! {

// ------------------------------------------------------------------ specs

/// `trim_matches('`')`: backticks removed from both ends.
pub open spec fn trim_ticks_start(s: Seq<char>) -> Seq<char>
    decreases s.len(),
{
    if s.len() > 0 && s[0] == '`' {
        trim_ticks_start(s.drop_first())
    } else {
        s
    }
}

pub open spec fn trim_ticks_end(s: Seq<char>) -> Seq<char>
    decreases s.len(),
{
    if s.len() > 0 && s.last() == '`' {
        trim_ticks_end(s.drop_last())
    } else {
        s
    }
}

pub open spec fn trim_ticks(s: Seq<char>) -> Seq<char> {
    trim_ticks_end(trim_ticks_start(s))
}

/// `- <!-- item:{id} -->`, the start of a glance line owned by a capture.
pub open spec fn glance_prefix(id: Seq<char>) -> Seq<char> {
    "- <!-- item:"@ + id + " -->"@
}

pub open spec fn is_glance_of(line: Seq<char>, id: Seq<char>) -> bool {
    starts_with(trim_start(line), glance_prefix(id))
}

/// `## {time} · \`{id}\` · {title}` for this capture id.
pub open spec fn spec_is_day_item_heading(line: Seq<char>, id: Seq<char>) -> bool {
    starts_with(line, "## "@) && match split_once(line.skip(3), " · "@) {
        None => false,
        Some((_, rest)) => match split_once(rest, " · "@) {
            None => false,
            Some((id_bit, _)) => trim_ticks(trim(id_bit)) == id,
        },
    }
}

pub open spec fn line_at(ls: Seq<Seq<char>>, i: int) -> Option<Seq<char>> {
    if 0 <= i < ls.len() {
        Some(ls[i])
    } else {
        None
    }
}

/// `---` directly above a `Raw:` line: the start of the footer.
pub open spec fn spec_is_raw_footer_sep(line: Seq<char>, next: Option<Seq<char>>) -> bool {
    trim(line) == "---"@ && match next {
        Some(n) => starts_with(trim(n), "Raw:"@),
        None => false,
    }
}

/// A line that ends a capture's section: the next `## ` heading, or the
/// footer, be it its `Raw:` line or the `---` above it (blank lines may
/// stand between the two, as in the footer this module writes).
pub open spec fn ends_section(ls: Seq<Seq<char>>, j: int) -> bool {
    starts_with(ls[j], "## "@) || raw_line(ls[j]) || spec_is_raw_footer_sep(
        ls[j],
        line_at(ls, skip_blank(ls, j + 1)),
    )
}

/// The lines that survive removing this capture's glance lines and section.
pub open spec fn splice_kept(ls: Seq<Seq<char>>, id: Seq<char>, i: int, skipping: bool) -> Seq<
    Seq<char>,
>
    decreases ls.len() - i,
{
    if i < 0 || i >= ls.len() {
        seq![]
    } else if skipping && !ends_section(ls, i) {
        splice_kept(ls, id, i + 1, true)
    } else if is_glance_of(ls[i], id) {
        splice_kept(ls, id, i + 1, false)
    } else if spec_is_day_item_heading(ls[i], id) {
        splice_kept(ls, id, i + 1, true)
    } else {
        seq![ls[i]] + splice_kept(ls, id, i + 1, false)
    }
}

pub open spec fn drop_trailing_blank(ks: Seq<Seq<char>>) -> Seq<Seq<char>>
    decreases ks.len(),
{
    if ks.len() > 0 && is_blank(ks.last()) {
        drop_trailing_blank(ks.drop_last())
    } else {
        ks
    }
}

/// Where a missing `# date` title goes: after the frontmatter, if any.
pub open spec fn title_slot(ks: Seq<Seq<char>>) -> int {
    if ks.len() > 0 && trim(ks[0]) == "---"@ {
        match first_line(ks, 1, 1, "---"@) {
            Some(p) => p + 1,
            None => 0,
        }
    } else {
        0
    }
}

pub open spec fn with_title(ks: Seq<Seq<char>>, display_date: Seq<char>) -> Seq<Seq<char>> {
    if first_line(ks, 0, 0, "# "@) is Some {
        ks
    } else {
        let at = title_slot(ks);
        ks.take(at) + seq!["# "@ + display_date, Seq::<char>::empty()] + ks.skip(at)
    }
}

/// The page with an `## At a glance` heading, and the heading's index.
pub open spec fn with_glance(ks: Seq<Seq<char>>) -> (Seq<Seq<char>>, int) {
    match first_line(ks, 0, 1, "## At a glance"@) {
        Some(g) => (ks, g),
        None => match first_line(ks, 0, 0, "# "@) {
            Some(t) => {
                let at = skip_blank(ks, t + 1);
                (ks.take(at) + seq!["## At a glance"@, Seq::<char>::empty()] + ks.skip(at), at)
            },
            None => (ks.push("## At a glance"@), ks.len() as int),
        },
    }
}

pub open spec fn nonempty_lines(ls: Seq<Seq<char>>) -> Seq<Seq<char>>
    decreases ls.len(),
{
    if ls.len() == 0 {
        seq![]
    } else if ls.last().len() == 0 {
        nonempty_lines(ls.drop_last())
    } else {
        nonempty_lines(ls.drop_last()).push(ls.last())
    }
}

pub open spec fn glance_slot(ks: Seq<Seq<char>>, g: int) -> int {
    if g + 1 < ks.len() && is_blank(ks[g + 1]) {
        g + 2
    } else {
        g + 1
    }
}

/// Where the capture's section goes: above the `---` / `Raw:` footer (the
/// `---` may stand a few blank lines above the `Raw:` line).
pub open spec fn footer_index(ks: Seq<Seq<char>>) -> int {
    match first_line(ks, 0, 2, "Raw: [[raw/"@) {
        Some(j) => {
            let p = blank_tail(ks, j);
            if p > 0 && trim(ks[p - 1]) == "---"@ {
                p - 1
            } else {
                j
            }
        },
        None => ks.len() as int,
    }
}

/// Blank lines directly above index `f` removed.
pub open spec fn drop_blank_before(ks: Seq<Seq<char>>, f: int) -> (Seq<Seq<char>>, int)
    decreases f,
{
    if f > 0 && f <= ks.len() && is_blank(ks[f - 1]) {
        drop_blank_before(ks.remove(f - 1), f - 1)
    } else {
        (ks, f)
    }
}

/// The footer a page without one gets below `ks`: `---`, a blank line and
/// the `Raw:` line, with a blank line above unless `ks` already ends with
/// one.
pub open spec fn raw_footer(ks: Seq<Seq<char>>, iso_date: Seq<char>) -> Seq<Seq<char>> {
    let tail = seq!["---"@, Seq::<char>::empty(), "Raw: [[raw/"@ + iso_date + "]]"@];
    if ks.len() > 0 && is_blank(ks.last()) {
        tail
    } else {
        seq![Seq::<char>::empty()] + tail
    }
}

/// The day note's lines after splicing one capture in.
pub open spec fn splice_lines(
    existing: Seq<char>,
    id: Seq<char>,
    glance_lines: Seq<char>,
    section: Seq<char>,
    iso_date: Seq<char>,
    display_date: Seq<char>,
) -> Seq<Seq<char>> {
    let ks0 = drop_trailing_blank(splice_kept(lines(existing), id, 0, false));
    let ks1 = with_title(ks0, display_date);
    let (ks2, g) = with_glance(ks1);
    let a = glance_slot(ks2, g);
    let ks3 = ks2.take(a) + nonempty_lines(lines(glance_lines)) + ks2.skip(a);
    let (ks4, f) = drop_blank_before(ks3, footer_index(ks3));
    let ks5 = ks4.take(f) + (seq![Seq::<char>::empty()] + lines(section)) + ks4.skip(f);
    if first_line(ks5, 0, 2, "Raw: [[raw/"@) is None {
        ks5 + raw_footer(ks5, iso_date)
    } else {
        ks5
    }
}

pub open spec fn with_final_newline(s: Seq<char>) -> Seq<char> {
    if ends_with(s, "\n"@) {
        s
    } else {
        s + "\n"@
    }
}

pub open spec fn spec_splice_day_item(
    existing: Seq<char>,
    id: Seq<char>,
    glance_lines: Seq<char>,
    section: Seq<char>,
    iso_date: Seq<char>,
    display_date: Seq<char>,
) -> Seq<char> {
    with_final_newline(
        join(splice_lines(existing, id, glance_lines, section, iso_date, display_date), "\n"@),
    )
}

/// The glance lines for a capture: one per non-blank summary bullet.
pub open spec fn glance_text(bullets: Seq<Seq<char>>, id: Seq<char>) -> Seq<char>
    decreases bullets.len(),
{
    if bullets.len() == 0 {
        seq![]
    } else {
        let t = trim(bullets.last());
        glance_text(bullets.drop_last(), id) + if t.len() > 0 {
            glance_prefix(id) + " "@ + t + "\n"@
        } else {
            seq![]
        }
    }
}

pub open spec fn day_title(title: Seq<char>) -> Seq<char> {
    let t = trim(title);
    take_chars(
        if t.len() == 0 {
            "Entry"@
        } else {
            t
        },
        80,
    )
}

pub open spec fn day_section(display_time: Seq<char>, id: Seq<char>, title: Seq<char>, body: Seq<
    char,
>) -> Seq<char> {
    let b = trim(body);
    "## "@ + display_time + " · `"@ + id + "` · "@ + title + "\n\n"@ + if b.len() > 0 {
        b + "\n\n"@
    } else {
        seq![]
    }
}

/// A fresh day note holding one capture.
pub open spec fn new_day_note(date: Seq<char>, display_date: Seq<char>, glance: Seq<char>, section: Seq<char>) -> Seq<
    char,
> {
    "---"@ + "\n"@ + ("date: "@ + date) + "\n"@ + "type: daily"@ + "\n"@ + "---"@ + "\n"@ + "\n"@ + ("# "@
        + display_date) + "\n"@ + "\n"@ + "## At a glance"@ + "\n"@ + "\n"@ + glance + "\n"@ + section + "---"@
        + "\n"@ + "\n"@ + ("Raw: [[raw/"@ + date + "]]"@) + "\n"@
}

/// The glance lines a capture is filed with: one per summary bullet, or
/// one holding its title when it has none.
pub open spec fn day_glance(bullets: Seq<Seq<char>>, id: Seq<char>, title: Seq<char>) -> Seq<char> {
    let g = glance_text(bullets, id);
    if g.len() == 0 {
        glance_prefix(id) + " "@ + title + "\n"@
    } else {
        g
    }
}

pub open spec fn spec_upsert_day_item(
    existing: Seq<char>,
    date: Seq<char>,
    id: Seq<char>,
    time: Seq<char>,
    title: Seq<char>,
    bullets: Seq<Seq<char>>,
    body: Seq<char>,
    date_fmt: Seq<char>,
    time_fmt: Seq<char>,
) -> Seq<char> {
    let t = day_title(title);
    let dt = spec_format_time(time, time_fmt);
    let dd = spec_format_date(date, date_fmt);
    let glance = day_glance(bullets, id, t);
    let section = day_section(dt, id, t, body);
    if trim(existing).len() == 0 {
        new_day_note(date, dd, glance, section)
    } else {
        spec_splice_day_item(existing, id, glance, section, date, dd)
    }
}

pub open spec fn spec_day_scaffold(date: Seq<char>, display_date: Seq<char>) -> Seq<char> {
    "---\ndate: "@ + date + "\ntype: daily\n---\n\n# "@ + display_date
        + "\n\n## At a glance\n\n- _(nothing filed yet)_\n\n---\n\nRaw: [[raw/"@ + date + "]]\n"@
}

// ------------------------------------------------------------------ exec

fn trim_ticks_exec(s: &[char]) -> (r: Vec<char>)
    ensures
        r@ == trim_ticks(s@),
{
    let mut lo: usize = 0;
    proof {
        assert(s@.skip(0) =~= s@);
    }
    while lo < s.len() && s[lo] == '`'
        invariant
            0 <= lo <= s.len(),
            trim_ticks_start(s@) == trim_ticks_start(s@.skip(lo as int)),
        decreases s.len() - lo,
    {
        proof {
            assert(s@.skip(lo as int).drop_first() =~= s@.skip(lo + 1));
        }
        lo += 1;
    }
    let t = slice_of(s, lo, s.len());
    proof {
        assert(t@ =~= s@.skip(lo as int));
    }
    let mut hi: usize = t.len();
    proof {
        assert(t@.subrange(0, t.len() as int) =~= t@);
    }
    while hi > 0 && t[hi - 1] == '`'
        invariant
            0 <= hi <= t.len(),
            trim_ticks_end(t@) == trim_ticks_end(t@.subrange(0, hi as int)),
        decreases hi,
    {
        proof {
            assert(t@.subrange(0, hi as int).drop_last() =~= t@.subrange(0, hi - 1));
        }
        hi -= 1;
    }
    slice_of(&t, 0, hi)
}

/// Is `line` the section heading of capture `item_id`?
pub fn is_day_item_heading(line: &[char], item_id: &[char]) -> (r: bool)
    ensures
        r == spec_is_day_item_heading(line@, item_id@),
{
    let rest = match strip_prefix_str(line, "## ") {
        Some(r) => r,
        None => return false,
    };
    proof {
        reveal_strlit("## ");
    }
    let rest2 = match split_once_str(&rest, " · ") {
        Some((_, b)) => b,
        None => return false,
    };
    let id_bit = match split_once_str(&rest2, " · ") {
        Some((a, _)) => a,
        None => return false,
    };
    let t = trim_exec(&id_bit);
    let tt = trim_ticks_exec(&t);
    crate::text::eq(&tt, item_id)
}

/// Is `line` the `---` that opens the `Raw:` footer?
pub fn is_raw_footer_sep(line: &[char], next: Option<&Vec<char>>) -> (r: bool)
    ensures
        r == spec_is_raw_footer_sep(
            line@,
            match next {
                Some(n) => Some(n@),
                None => None,
            },
        ),
{
    let t = trim_exec(line);
    if !crate::text::eq_str(&t, "---") {
        return false;
    }
    match next {
        Some(n) => {
            let nt = trim_exec(n);
            starts_with_str(&nt, "Raw:")
        },
        None => false,
    }
}

fn ends_section_exec(ls: &Vec<Vec<char>>, j: usize) -> (r: bool)
    requires
        j < ls.len(),
    ensures
        r == ends_section(vv(ls@), j as int),
{
    assert(vv(ls@)[j as int] == ls@[j as int]@);
    if starts_with_str(&ls[j], "## ") {
        return true;
    }
    let rp = chars_of("Raw: [[raw/");
    if line_test_exec(&ls[j], 2, &rp) {
        return true;
    }
    let k = skip_blank_exec(ls, j + 1);
    let next = if k < ls.len() {
        assert(vv(ls@)[k as int] == ls@[k as int]@);
        Some(&ls[k])
    } else {
        None
    };
    is_raw_footer_sep(&ls[j], next)
}

fn kept_lines(ls: &Vec<Vec<char>>, id: &[char]) -> (r: Vec<Vec<char>>)
    ensures
        vv(r@) == splice_kept(vv(ls@), id@, 0, false),
{
    let ghost g = vv(ls@);
    let mut out: Vec<Vec<char>> = Vec::new();
    let mut skipping = false;
    let mut i: usize = 0;
    let mut prefix: Vec<char> = Vec::new();
    push_str(&mut prefix, "- <!-- item:");
    push_all(&mut prefix, id);
    push_str(&mut prefix, " -->");
    proof {
        assert(vv(out@) + splice_kept(g, id@, 0, false) =~= splice_kept(g, id@, 0, false));
    }
    while i < ls.len()
        invariant
            g == vv(ls@),
            0 <= i <= ls.len(),
            prefix@ == glance_prefix(id@),
            splice_kept(g, id@, 0, false) == vv(out@) + splice_kept(g, id@, i as int, skipping),
        decreases ls.len() - i,
    {
        assert(g[i as int] == ls@[i as int]@);
        if skipping && !ends_section_exec(ls, i) {
            i += 1;
            continue;
        }
        let (lo, _) = crate::text::trim_bounds(&ls[i]);
        let ts = slice_of(&ls[i], lo, ls[i].len());
        if starts_with_exec(&ts, &prefix) {
            skipping = false;
            i += 1;
            continue;
        }
        if is_day_item_heading(&ls[i], id) {
            skipping = true;
            i += 1;
            continue;
        }
        let l = copy(&ls[i]);
        proof {
            assert(vv(out@) + (seq![l@] + splice_kept(g, id@, i + 1, false)) =~= vv(out@).push(l@)
                + splice_kept(g, id@, i + 1, false));
        }
        push_line(&mut out, l);
        skipping = false;
        i += 1;
    }
    proof {
        assert(vv(out@) + Seq::<Seq<char>>::empty() =~= vv(out@));
    }
    out
}

fn drop_trailing_blank_exec(ks: &mut Vec<Vec<char>>)
    ensures
        vv(final(ks)@) == drop_trailing_blank(vv(old(ks)@)),
{
    while ks.len() > 0 && is_blank_exec(&ks[ks.len() - 1])
        invariant
            drop_trailing_blank(vv(old(ks)@)) == drop_trailing_blank(vv(ks@)),
        decreases ks.len(),
    {
        let ghost before = ks@;
        assert(vv(before).last() == before.last()@);
        ks.pop();
        proof {
            assert(vv(ks@) =~= vv(before).drop_last());
        }
    }
}

/// `ks[..at] + new + ks[at..]`.
fn splice_in(ks: &Vec<Vec<char>>, at: usize, new: &Vec<Vec<char>>) -> (r: Vec<Vec<char>>)
    requires
        at <= ks.len(),
    ensures
        vv(r@) == vv(ks@).take(at as int) + vv(new@) + vv(ks@).skip(at as int),
{
    let mut out: Vec<Vec<char>> = Vec::new();
    push_lines(&mut out, ks, 0, at);
    push_lines(&mut out, new, 0, new.len());
    push_lines(&mut out, ks, at, ks.len());
    proof {
        assert(vv(ks@).subrange(0, at as int) =~= vv(ks@).take(at as int));
        assert(vv(new@).subrange(0, new.len() as int) =~= vv(new@));
        assert(vv(ks@).subrange(at as int, ks.len() as int) =~= vv(ks@).skip(at as int));
        assert(Seq::<Seq<char>>::empty() + vv(ks@).take(at as int) =~= vv(ks@).take(at as int));
    }
    out
}

fn nonempty_lines_exec(ls: &Vec<Vec<char>>) -> (r: Vec<Vec<char>>)
    ensures
        vv(r@) == nonempty_lines(vv(ls@)),
{
    let mut out: Vec<Vec<char>> = Vec::new();
    let mut i: usize = 0;
    while i < ls.len()
        invariant
            0 <= i <= ls.len(),
            vv(out@) == nonempty_lines(vv(ls@).take(i as int)),
        decreases ls.len() - i,
    {
        proof {
            let t = vv(ls@).take(i + 1);
            assert(t.drop_last() =~= vv(ls@).take(i as int));
            assert(t.last() == ls@[i as int]@);
        }
        if ls[i].len() > 0 {
            push_line(&mut out, copy(&ls[i]));
        }
        i += 1;
    }
    proof {
        assert(vv(ls@).take(ls.len() as int) =~= vv(ls@));
    }
    out
}

fn line_of(s: &str) -> (r: Vec<char>)
    ensures
        r@ == s@,
{
    chars_of(s)
}

fn stage_title(ks: Vec<Vec<char>>, display_date: &str) -> (r: Vec<Vec<char>>)
    ensures
        vv(r@) == with_title(vv(ks@), display_date@),
{
    match first_line_exec(&ks, 0, 0, "# ") {
        Some(_) => ks,
        None => {
            let mut at: usize = 0;
            if ks.len() > 0 {
                let t0 = trim_exec(&ks[0]);
                assert(vv(ks@)[0] == ks@[0]@);
                if crate::text::eq_str(&t0, "---") {
                    at = match first_line_exec(&ks, 1, 1, "---") {
                        Some(p) => p + 1,
                        None => 0,
                    };
                }
            }
            let mut title = line_of("# ");
            let dd = chars_of(display_date);
            push_all(&mut title, &dd);
            let mut new: Vec<Vec<char>> = Vec::new();
            push_line(&mut new, title);
            push_line(&mut new, Vec::new());
            proof {
                assert(vv(new@) =~= seq!["# "@ + display_date@, Seq::<char>::empty()]);
            }
            splice_in(&ks, at, &new)
        },
    }
}

fn stage_glance(ks1: Vec<Vec<char>>) -> (r: (Vec<Vec<char>>, usize))
    ensures
        (vv(r.0@), r.1 as int) == with_glance(vv(ks1@)),
        r.1 < r.0.len(),
{
    match first_line_exec(&ks1, 0, 1, "## At a glance") {
        Some(g) => (ks1, g),
        None => match first_line_exec(&ks1, 0, 0, "# ") {
            Some(t) => {
                let at = skip_blank_exec(&ks1, t + 1);
                let mut new: Vec<Vec<char>> = Vec::new();
                push_line(&mut new, line_of("## At a glance"));
                push_line(&mut new, Vec::new());
                proof {
                    assert(vv(new@) =~= seq!["## At a glance"@, Seq::<char>::empty()]);
                }
                let k = splice_in(&ks1, at, &new);
                assert(vv(k@).len() == k@.len());
                assert(vv(new@).len() == 2);
                assert(vv(ks1@).len() == ks1@.len());
                (k, at)
            },
            None => {
                let mut k = ks1;
                let n = k.len();
                push_line(&mut k, line_of("## At a glance"));
                assert(vv(k@).len() == k@.len());
                assert(vv(ks1@).len() == ks1@.len());
                (k, n)
            },
        },
    }
}

fn stage_glance_lines(ks2: &Vec<Vec<char>>, gi: usize, glance_lines: &str) -> (r: Vec<Vec<char>>)
    requires
        gi < ks2.len(),
    ensures
        ({
            let a = glance_slot(vv(ks2@), gi as int);
            vv(r@) == vv(ks2@).take(a) + nonempty_lines(lines(glance_lines@)) + vv(ks2@).skip(a)
        }),
{
    let ghost g2 = vv(ks2@);
    let mut a = gi + 1;
    if a < ks2.len() && is_blank_exec(&ks2[a]) {
        assert(g2[a as int] == ks2@[a as int]@);
        a = a + 1;
    } else {
        proof {
            if a < ks2.len() {
                assert(g2[a as int] == ks2@[a as int]@);
            }
        }
    }
    assert(a == glance_slot(g2, gi as int));
    let gl = lines_of(glance_lines);
    let glances = nonempty_lines_exec(&gl);
    splice_in(ks2, a, &glances)
}

fn stage_section(ks3: Vec<Vec<char>>, section: &str) -> (r: Vec<Vec<char>>)
    ensures
        ({
            let (ks4, f) = drop_blank_before(vv(ks3@), footer_index(vv(ks3@)));
            vv(r@) == ks4.take(f) + (seq![Seq::<char>::empty()] + lines(section@)) + ks4.skip(f)
        }),
{
    let ghost g3 = vv(ks3@);
    let mut f = match first_line_exec(&ks3, 0, 2, "Raw: [[raw/") {
        Some(j) => {
            let mut p = j;
            while p > 0 && is_blank_exec(&ks3[p - 1])
                invariant
                    g3 == vv(ks3@),
                    p <= j < ks3.len(),
                    blank_tail(g3, j as int) == blank_tail(g3, p as int),
                decreases p,
            {
                assert(g3[p - 1] == ks3@[p - 1]@);
                p -= 1;
            }
            if p > 0 {
                let tp = trim_exec(&ks3[p - 1]);
                assert(g3[p - 1] == ks3@[p - 1]@);
                if crate::text::eq_str(&tp, "---") {
                    p - 1
                } else {
                    j
                }
            } else {
                j
            }
        },
        None => ks3.len(),
    };
    assert(f == footer_index(g3));
    let mut ks4 = ks3;
    while f > 0 && f <= ks4.len() && is_blank_exec(&ks4[f - 1])
        invariant
            drop_blank_before(g3, footer_index(g3)) == drop_blank_before(vv(ks4@), f as int),
        decreases f,
    {
        let ghost before = ks4@;
        assert(vv(before)[f - 1] == before[f - 1]@);
        ks4.remove(f - 1);
        proof {
            assert(vv(ks4@) =~= vv(before).remove(f - 1));
        }
        f = f - 1;
    }
    assert((vv(ks4@), f as int) == drop_blank_before(g3, footer_index(g3)));
    let mut sec: Vec<Vec<char>> = Vec::new();
    push_line(&mut sec, Vec::new());
    let sl = lines_of(section);
    push_lines(&mut sec, &sl, 0, sl.len());
    proof {
        assert(vv(sl@).subrange(0, sl.len() as int) =~= vv(sl@));
        assert(Seq::<Seq<char>>::empty().push(Seq::<char>::empty()) + lines(section@) =~= seq![
            Seq::<char>::empty(),
        ] + lines(section@));
    }
    assert(f <= ks4.len()) by {
        lemma_drop_blank_before_bounds(g3, footer_index(g3));
    }
    splice_in(&ks4, f, &sec)
}

fn stage_footer(ks5: Vec<Vec<char>>, iso_date: &str) -> (r: Vec<Vec<char>>)
    ensures
        vv(r@) == (if first_line(vv(ks5@), 0, 2, "Raw: [[raw/"@) is None {
            vv(ks5@) + raw_footer(vv(ks5@), iso_date@)
        } else {
            vv(ks5@)
        }),
{
    let mut ks5 = ks5;
    if first_line_exec(&ks5, 0, 2, "Raw: [[raw/").is_none() {
        let ghost b5 = vv(ks5@);
        let n = ks5.len();
        proof {
            if n > 0 {
                assert(b5.last() == ks5@[n - 1]@);
            }
        }
        if !(n > 0 && is_blank_exec(&ks5[n - 1])) {
            push_line(&mut ks5, Vec::new());
        }
        push_line(&mut ks5, line_of("---"));
        push_line(&mut ks5, Vec::new());
        let mut raw = line_of("Raw: [[raw/");
        let iso = chars_of(iso_date);
        push_all(&mut raw, &iso);
        push_str(&mut raw, "]]");
        push_line(&mut ks5, raw);
        proof {
            assert(vv(ks5@) =~= b5 + raw_footer(b5, iso_date@));
        }
    }
    ks5
}

fn joined_with_newline(ls: &Vec<Vec<char>>) -> (r: String)
    ensures
        r@ == with_final_newline(join(vv(ls@), "\n"@)),
{
    let mut out = join_exec(ls, "\n");
    if !(out.len() > 0 && out[out.len() - 1] == '\n') {
        push_str(&mut out, "\n");
        proof {
            reveal_strlit("\n");
            let o = join(vv(ls@), "\n"@);
            if o.len() > 0 {
                assert(o.skip(o.len() - 1)[0] == o.last());
            }
            assert(!ends_with(o, "\n"@));
        }
    } else {
        proof {
            reveal_strlit("\n");
            let o = join(vv(ls@), "\n"@);
            assert(o.skip(o.len() - 1) =~= "\n"@);
        }
    }
    to_string(&out)
}

/// Remove this capture's glance lines and section from `existing`, then
/// insert the new ones: glance lines under `## At a glance`, the section
/// just above the `Raw:` footer. Everything else is kept in order.
pub fn splice_day_item(
    existing: &str,
    item_id: &str,
    glance_lines: &str,
    section: &str,
    iso_date: &str,
    display_date: &str,
) -> (r: String)
    ensures
        r@ == spec_splice_day_item(
            existing@,
            item_id@,
            glance_lines@,
            section@,
            iso_date@,
            display_date@,
        ),
{
    let id = chars_of(item_id);
    let ls = lines_of(existing);
    let mut ks = kept_lines(&ls, &id);
    drop_trailing_blank_exec(&mut ks);
    let ks1 = stage_title(ks, display_date);
    let (ks2, gi) = stage_glance(ks1);
    let ks3 = stage_glance_lines(&ks2, gi, glance_lines);
    let ks5 = stage_section(ks3, section);
    let ks6 = stage_footer(ks5, iso_date);
    joined_with_newline(&ks6)
}

fn glance_text_exec(bullets: &[String], id: &[char]) -> (r: Vec<char>)
    ensures
        r@ == glance_text(bullets@.map_values(|b: String| b@), id@),
{
    let ghost bs = bullets@.map_values(|b: String| b@);
    let mut out: Vec<char> = Vec::new();
    let mut i: usize = 0;
    while i < bullets.len()
        invariant
            0 <= i <= bullets.len(),
            bs == bullets@.map_values(|b: String| b@),
            out@ == glance_text(bs.take(i as int), id@),
        decreases bullets.len() - i,
    {
        proof {
            let t = bs.take(i + 1);
            assert(t.drop_last() =~= bs.take(i as int));
            assert(t.last() == bullets@[i as int]@);
        }
        let bc = chars_of(bullets[i].as_str());
        let t = trim_exec(&bc);
        let ghost before = out@;
        if t.len() > 0 {
            push_str(&mut out, "- <!-- item:");
            push_all(&mut out, id);
            push_str(&mut out, " -->");
            push_str(&mut out, " ");
            push_all(&mut out, &t);
            push_str(&mut out, "\n");
            proof {
                assert(out@ =~= before + (glance_prefix(id@) + " "@ + t@ + "\n"@));
            }
        } else {
            proof {
                assert(out@ =~= before + Seq::<char>::empty());
            }
        }
        i += 1;
    }
    proof {
        assert(bs.take(bullets.len() as int) =~= bs);
    }
    out
}

/// The day note after filing one capture into it: a fresh note when
/// `existing` is blank, otherwise `existing` with this capture spliced in.
/// `Err` when `date` is not a `YYYY-MM-DD` date.
pub fn upsert_day_item(
    existing: &str,
    date: &str,
    item_id: &str,
    time: &str,
    title: &str,
    summary_bullets: &[String],
    body: &str,
    date_fmt: &str,
    time_fmt: &str,
) -> (r: Result<String, String>)
    ensures
        r matches Ok(s) ==> naive_date_parse(date@, pat_iso()) is Some && s@
            == spec_upsert_day_item(
            existing@,
            date@,
            item_id@,
            time@,
            title@,
            summary_bullets@.map_values(|b: String| b@),
            body@,
            date_fmt@,
            time_fmt@,
        ),
        r matches Err(e) ==> naive_date_parse(date@, pat_iso()) is None && e@ == "'"@ + date@
            + "' is not a YYYY-MM-DD date"@,
{
    if let Err(e) = valid_date(date) {
        return Err(e);
    }
    let tc = chars_of(title);
    let t0 = trim_exec(&tc);
    let t1 = if t0.len() == 0 {
        chars_of("Entry")
    } else {
        t0
    };
    let t = take_chars_exec(&t1, 80);
    let display_time = format_time(time, time_fmt);
    let display_date = format_date(date, date_fmt);
    let id = chars_of(item_id);
    let glance0 = glance_text_exec(summary_bullets, &id);
    let glance = if glance0.len() == 0 {
        let mut d: Vec<char> = Vec::new();
        push_str(&mut d, "- <!-- item:");
        push_all(&mut d, &id);
        push_str(&mut d, " -->");
        push_str(&mut d, " ");
        push_all(&mut d, &t);
        push_str(&mut d, "\n");
        d
    } else {
        glance0
    };
    assert(glance@ =~= day_glance(summary_bullets@.map_values(|b: String| b@), id@, t@));
    let mut section: Vec<char> = Vec::new();
    push_str(&mut section, "## ");
    push_str(&mut section, display_time.as_str());
    push_str(&mut section, " · `");
    push_all(&mut section, &id);
    push_str(&mut section, "` · ");
    push_all(&mut section, &t);
    push_str(&mut section, "\n\n");
    let bc = chars_of(body);
    let b = trim_exec(&bc);
    if b.len() > 0 {
        push_all(&mut section, &b);
        push_str(&mut section, "\n\n");
    }
    assert(section@ =~= day_section(display_time@, id@, t@, body@));
    let ec = chars_of(existing);
    if is_blank_exec(&ec) {
        let mut out: Vec<char> = Vec::new();
        push_str(&mut out, "---");
        assert(out@ =~= "---"@);
        push_str(&mut out, "\n");
        let mut dl: Vec<char> = Vec::new();
        push_str(&mut dl, "date: ");
        push_str(&mut dl, date);
        push_all(&mut out, &dl);
        push_str(&mut out, "\n");
        push_str(&mut out, "type: daily");
        push_str(&mut out, "\n");
        push_str(&mut out, "---");
        push_str(&mut out, "\n");
        push_str(&mut out, "\n");
        let mut tl: Vec<char> = Vec::new();
        push_str(&mut tl, "# ");
        push_str(&mut tl, display_date.as_str());
        push_all(&mut out, &tl);
        push_str(&mut out, "\n");
        push_str(&mut out, "\n");
        push_str(&mut out, "## At a glance");
        push_str(&mut out, "\n");
        push_str(&mut out, "\n");
        push_all(&mut out, &glance);
        push_str(&mut out, "\n");
        push_all(&mut out, &section);
        push_str(&mut out, "---");
        push_str(&mut out, "\n");
        push_str(&mut out, "\n");
        let mut rl: Vec<char> = Vec::new();
        push_str(&mut rl, "Raw: [[raw/");
        push_str(&mut rl, date);
        push_str(&mut rl, "]]");
        push_all(&mut out, &rl);
        push_str(&mut out, "\n");
        assert(out@ == new_day_note(date@, display_date@, glance@, section@));
        return Ok(to_string(&out));
    }
    let gs = to_string(&glance);
    let ss = to_string(&section);
    Ok(splice_day_item(existing, item_id, gs.as_str(), ss.as_str(), date, display_date.as_str()))
}

/// What Today shows: the day note when there is one, otherwise an empty
/// scaffold for `date`. `Err` when `date` is not a `YYYY-MM-DD` date.
pub fn ensure_day(date: &str, date_fmt: &str, existing: Option<&str>) -> (r: Result<String, String>)
    ensures
        r matches Ok(s) ==> naive_date_parse(date@, pat_iso()) is Some && s@ == match existing {
            Some(e) => e@,
            None => spec_day_scaffold(date@, spec_format_date(date@, date_fmt@)),
        },
        r matches Err(e) ==> naive_date_parse(date@, pat_iso()) is None && e@ == "'"@ + date@
            + "' is not a YYYY-MM-DD date"@,
{
    if let Err(e) = valid_date(date) {
        return Err(e);
    }
    match existing {
        Some(e) => Ok(e.to_string()),
        None => {
            let display = format_date(date, date_fmt);
            let mut out: Vec<char> = Vec::new();
            push_str(&mut out, "---\ndate: ");
            push_str(&mut out, date);
            push_str(&mut out, "\ntype: daily\n---\n\n# ");
            push_str(&mut out, display.as_str());
            push_str(&mut out, "\n\n## At a glance\n\n- _(nothing filed yet)_\n\n---\n\nRaw: [[raw/");
            push_str(&mut out, date);
            push_str(&mut out, "]]\n");
            assert(out@ =~= spec_day_scaffold(date@, display@));
            Ok(to_string(&out))
        },
    }
}

proof fn lemma_blank_tail_bounds(ks: Seq<Seq<char>>, j: int)
    requires
        0 <= j,
    ensures
        0 <= blank_tail(ks, j) <= j,
        forall|m: int| blank_tail(ks, j) <= m < j ==> is_blank(#[trigger] ks[m]),
    decreases j,
{
    if j > 0 && is_blank(ks[j - 1]) {
        lemma_blank_tail_bounds(ks, j - 1);
    }
}

proof fn lemma_footer_index_bounds(ks: Seq<Seq<char>>)
    ensures
        0 <= footer_index(ks) <= ks.len(),
        first_line(ks, 0, 2, "Raw: [[raw/"@) matches Some(j) ==> footer_index(ks) <= j,
{
    lemma_first_line_bounds(ks, 0, 2, "Raw: [[raw/"@);
    if let Some(j) = first_line(ks, 0, 2, "Raw: [[raw/"@) {
        lemma_blank_tail_bounds(ks, j);
    }
}

/// The lines of the footer a page without one gets.
proof fn lemma_raw_footer_parts(ks: Seq<Seq<char>>, iso_date: Seq<char>)
    ensures
        ({
            let f = raw_footer(ks, iso_date);
            &&& f.len() >= 3
            &&& f.last() == "Raw: [[raw/"@ + iso_date + "]]"@
            &&& f[f.len() - 1] == "Raw: [[raw/"@ + iso_date + "]]"@
            &&& forall|k: int| 0 <= k < f.len() - 1 ==> f[k] == Seq::<char>::empty() || f[k] == "---"@
        }),
{
    let f = raw_footer(ks, iso_date);
    let e: Seq<char> = Seq::empty();
    if ks.len() > 0 && is_blank(ks.last()) {
        assert forall|k: int| 0 <= k < f.len() - 1 implies f[k] == e || f[k] == "---"@ by {
            if k == 0 {
            } else {
            }
        }
    } else {
        assert forall|k: int| 0 <= k < f.len() - 1 implies f[k] == e || f[k] == "---"@ by {
            if k == 0 {
            } else if k == 1 {
            } else {
            }
        }
    }
}

pub proof fn lemma_drop_blank_before_bounds(ks: Seq<Seq<char>>, f: int)
    requires
        0 <= f <= ks.len(),
    ensures
        ({
            let (k, g) = drop_blank_before(ks, f);
            0 <= g <= k.len()
        }),
    decreases f,
{
    if f > 0 && f <= ks.len() && is_blank(ks[f - 1]) {
        lemma_drop_blank_before_bounds(ks.remove(f - 1), f - 1);
    }
}


// ------------------------------------------------------------------ laws

/// A glance line owned by capture `id`.
pub open spec fn glance_line_of(id: Seq<char>) -> spec_fn(Seq<char>) -> bool {
    |l: Seq<char>| is_glance_of(l, id)
}

/// The section heading of capture `id`.
pub open spec fn heading_line_of(id: Seq<char>) -> spec_fn(Seq<char>) -> bool {
    |l: Seq<char>| spec_is_day_item_heading(l, id)
}

proof fn lemma_kept_owns_nothing(ls: Seq<Seq<char>>, id: Seq<char>, i: int, skipping: bool, p: spec_fn(Seq<char>) -> bool)
    requires
        forall|l: Seq<char>| #[trigger] p(l) ==> is_glance_of(l, id) || spec_is_day_item_heading(l, id),
    ensures
        count_lines(splice_kept(ls, id, i, skipping), p) == 0,
    decreases ls.len() - i,
{
    if i < 0 || i >= ls.len() {
    } else if skipping && !ends_section(ls, i) {
        lemma_kept_owns_nothing(ls, id, i + 1, true, p);
    } else if is_glance_of(ls[i], id) {
        lemma_kept_owns_nothing(ls, id, i + 1, false, p);
    } else if spec_is_day_item_heading(ls[i], id) {
        lemma_kept_owns_nothing(ls, id, i + 1, true, p);
    } else {
        lemma_kept_owns_nothing(ls, id, i + 1, false, p);
        lemma_count_add(seq![ls[i]], splice_kept(ls, id, i + 1, false), p);
        lemma_count_one(ls[i], p);
    }
}

proof fn lemma_count_drop_trailing_blank(ks: Seq<Seq<char>>, p: spec_fn(Seq<char>) -> bool)
    requires
        forall|l: Seq<char>| #[trigger] p(l) ==> !is_blank(l),
    ensures
        count_lines(drop_trailing_blank(ks), p) == count_lines(ks, p),
    decreases ks.len(),
{
    if ks.len() > 0 && is_blank(ks.last()) {
        lemma_count_drop_trailing_blank(ks.drop_last(), p);
    }
}

proof fn lemma_count_drop_blank_before(ks: Seq<Seq<char>>, f: int, p: spec_fn(Seq<char>) -> bool)
    requires
        forall|l: Seq<char>| #[trigger] p(l) ==> !is_blank(l),
    ensures
        count_lines(drop_blank_before(ks, f).0, p) == count_lines(ks, p),
    decreases f,
{
    if f > 0 && f <= ks.len() && is_blank(ks[f - 1]) {
        lemma_count_remove(ks, f - 1, p);
        lemma_count_drop_blank_before(ks.remove(f - 1), f - 1, p);
    }
}

/// Lines the splice writes around a capture belong to no capture.
proof fn lemma_scaffold_owned_by_none(id: Seq<char>, iso_date: Seq<char>, display_date: Seq<char>)
    ensures
        !is_glance_of("# "@ + display_date, id),
        !spec_is_day_item_heading("# "@ + display_date, id),
        !is_glance_of("## At a glance"@, id),
        !spec_is_day_item_heading("## At a glance"@, id),
        !is_glance_of(Seq::<char>::empty(), id),
        !spec_is_day_item_heading(Seq::<char>::empty(), id),
        !is_glance_of("---"@, id),
        !spec_is_day_item_heading("---"@, id),
        !is_glance_of("Raw: [[raw/"@ + iso_date + "]]"@, id),
        !spec_is_day_item_heading("Raw: [[raw/"@ + iso_date + "]]"@, id),
{
    reveal_strlit("# ");
    reveal_strlit("## ");
    reveal_strlit("## At a glance");
    reveal_strlit("At a glance");
    reveal_strlit(" · ");
    reveal_strlit("---");
    reveal_strlit("Raw: [[raw/");
    reveal_strlit("- <!-- item:");
    let t = "# "@ + display_date;
    lemma_solid_line(t);
    assert(t[1] == ' ');
    assert(!starts_with(t, "## "@)) by {
        if starts_with(t, "## "@) {
            assert(t.take(3)[1] == "## "@[1]);
        }
    }
    assert(!starts_with(t, glance_prefix(id))) by {
        if starts_with(t, glance_prefix(id)) {
            assert(t.take(glance_prefix(id).len() as int)[0] == glance_prefix(id)[0]);
        }
    }
    let g = "## At a glance"@;
    lemma_solid_line(g);
    assert(g.skip(3) =~= "At a glance"@);
    lemma_find_props("At a glance"@, " · "@);
    assert(find("At a glance"@, " · "@) is None) by {
        if let Some(k) = find("At a glance"@, " · "@) {
            assert("At a glance"@.subrange(k, k + 3)[1] == " · "@[1]);
        }
    }
    assert(!starts_with(g, glance_prefix(id))) by {
        if starts_with(g, glance_prefix(id)) {
            assert(g.take(glance_prefix(id).len() as int)[0] == glance_prefix(id)[0]);
        }
    }
    let d = "---"@;
    lemma_solid_line(d);
    assert(!starts_with(d, glance_prefix(id))) by {
        if starts_with(d, glance_prefix(id)) {
            assert(d.take(glance_prefix(id).len() as int)[1] == glance_prefix(id)[1]);
        }
    }
    assert(!starts_with(d, "## "@)) by {
        if starts_with(d, "## "@) {
            assert(d.take(3)[0] == "## "@[0]);
        }
    }
    let r = "Raw: [[raw/"@ + iso_date + "]]"@;
    lemma_solid_line(r);
    assert(!starts_with(r, glance_prefix(id))) by {
        if starts_with(r, glance_prefix(id)) {
            assert(r.take(glance_prefix(id).len() as int)[0] == glance_prefix(id)[0]);
        }
    }
    assert(!starts_with(r, "## "@)) by {
        if starts_with(r, "## "@) {
            assert(r.take(3)[0] == "## "@[0]);
        }
    }
    assert(trim_start(Seq::<char>::empty()) =~= Seq::<char>::empty());
}

proof fn lemma_owned_lines_not_blank(id: Seq<char>, l: Seq<char>)
    ensures
        is_glance_of(l, id) ==> !is_blank(l),
        spec_is_day_item_heading(l, id) ==> !is_blank(l),
{
    reveal_strlit("## ");
    reveal_strlit("- <!-- item:");
    if is_glance_of(l, id) {
        let t = trim_start(l);
        assert(t.take(glance_prefix(id).len() as int)[0] == '-');
        lemma_trim_start_edges(l);
        lemma_trim_end_keeps(t, 0);
    }
    if spec_is_day_item_heading(l, id) {
        assert(l.take(3)[0] == '#');
        lemma_solid_line(l);
    }
}

/// Lines the splice writes around a capture, none of which satisfies `p`.
pub open spec fn scaffold_avoids(p: spec_fn(Seq<char>) -> bool, iso_date: Seq<char>, display_date: Seq<char>) -> bool {
    &&& !p("# "@ + display_date)
    &&& !p("## At a glance"@)
    &&& !p(Seq::<char>::empty())
    &&& !p("---"@)
    &&& !p("Raw: [[raw/"@ + iso_date + "]]"@)
}

/// The count of a non-blank kind of line over the spliced page: what the
/// kept lines, the new glance lines and the new section bring, plus the
/// scaffold the splice may add, which brings nothing when it avoids `p`.
proof fn lemma_splice_count(
    existing: Seq<char>,
    id: Seq<char>,
    glance_lines: Seq<char>,
    section: Seq<char>,
    iso_date: Seq<char>,
    display_date: Seq<char>,
    p: spec_fn(Seq<char>) -> bool,
)
    requires
        forall|l: Seq<char>| #[trigger] p(l) ==> !is_blank(l),
    ensures
        ({
            let n = count_lines(splice_lines(existing, id, glance_lines, section, iso_date, display_date), p);
            let base = count_lines(splice_kept(lines(existing), id, 0, false), p)
                + count_lines(nonempty_lines(lines(glance_lines)), p) + count_lines(lines(section), p);
            &&& n >= base
            &&& scaffold_avoids(p, iso_date, display_date) ==> n == base
        }),
{
    let av = scaffold_avoids(p, iso_date, display_date);
    let e: Seq<char> = Seq::empty();
    let kept = splice_kept(lines(existing), id, 0, false);
    let ks0 = drop_trailing_blank(kept);
    lemma_count_drop_trailing_blank(kept, p);
    // the title
    let ks1 = with_title(ks0, display_date);
    let title = seq!["# "@ + display_date, e];
    if av {
        lemma_count_two("# "@ + display_date, e, p);
    }
    if first_line(ks0, 0, 0, "# "@) is None {
        let at = title_slot(ks0);
        if ks0.len() > 0 && trim(ks0[0]) == "---"@ {
            lemma_first_line_bounds(ks0, 1, 1, "---"@);
        }
        lemma_count_insert(ks0, at, title, p);
    }
    assert(count_lines(ks1, p) >= count_lines(kept, p));
    assert(av ==> count_lines(ks1, p) == count_lines(kept, p));
    // the glance heading
    let (ks2, g) = with_glance(ks1);
    let gh = seq!["## At a glance"@, e];
    if av {
        lemma_count_two("## At a glance"@, e, p);
    }
    lemma_first_line_bounds(ks1, 0, 1, "## At a glance"@);
    match first_line(ks1, 0, 1, "## At a glance"@) {
        Some(_) => {},
        None => match first_line(ks1, 0, 0, "# "@) {
            Some(t) => {
                lemma_first_line_bounds(ks1, 0, 0, "# "@);
                lemma_skip_blank_bounds(ks1, t + 1);
                let at = skip_blank(ks1, t + 1);
                lemma_count_insert(ks1, at, gh, p);
            },
            None => {
                lemma_count_add(ks1, seq!["## At a glance"@], p);
                lemma_count_one("## At a glance"@, p);
                assert(ks1.push("## At a glance"@) =~= ks1 + seq!["## At a glance"@]);
            },
        },
    }
    assert(count_lines(ks2, p) >= count_lines(kept, p));
    assert(av ==> count_lines(ks2, p) == count_lines(kept, p));
    assert(0 <= g < ks2.len());
    // the glance lines
    let a = glance_slot(ks2, g);
    let new_glance = nonempty_lines(lines(glance_lines));
    let ks3 = ks2.take(a) + new_glance + ks2.skip(a);
    lemma_count_insert(ks2, a, new_glance, p);
    // blank lines above the footer
    let fi = footer_index(ks3);
    lemma_footer_index_bounds(ks3);
    lemma_first_line_bounds(ks3, 0, 2, "Raw: [[raw/"@);
    assert(0 <= fi <= ks3.len());
    let (ks4, f) = drop_blank_before(ks3, fi);
    lemma_count_drop_blank_before(ks3, fi, p);
    lemma_drop_blank_before_bounds(ks3, fi);
    // the section
    let sec = seq![e] + lines(section);
    lemma_count_add(seq![e], lines(section), p);
    lemma_count_one(e, p);
    let ks5 = ks4.take(f) + sec + ks4.skip(f);
    lemma_count_insert(ks4, f, sec, p);
    // the footer
    if first_line(ks5, 0, 2, "Raw: [[raw/"@) is None {
        let foot = raw_footer(ks5, iso_date);
        lemma_count_add(ks5, foot, p);
        if av {
            lemma_raw_footer_parts(ks5, iso_date);
            assert forall|k: int| 0 <= k < foot.len() implies !p(#[trigger] foot[k]) by {}
            lemma_count_none(foot, p);
        }
    }
}

/// What a capture owns counts the same on the spliced page as in what the
/// splice brings: the kept lines hold none of it and the scaffold none.
proof fn lemma_splice_owned_count(
    existing: Seq<char>,
    id: Seq<char>,
    glance_lines: Seq<char>,
    section: Seq<char>,
    iso_date: Seq<char>,
    display_date: Seq<char>,
    p: spec_fn(Seq<char>) -> bool,
)
    requires
        forall|l: Seq<char>| #[trigger] p(l) ==> is_glance_of(l, id) || spec_is_day_item_heading(l, id),
    ensures
        count_lines(splice_lines(existing, id, glance_lines, section, iso_date, display_date), p)
            == count_lines(nonempty_lines(lines(glance_lines)), p) + count_lines(lines(section), p),
{
    lemma_scaffold_owned_by_none(id, iso_date, display_date);
    assert forall|l: Seq<char>| #[trigger] p(l) implies !is_blank(l) by {
        lemma_owned_lines_not_blank(id, l);
    }
    lemma_kept_owns_nothing(lines(existing), id, 0, false, p);
    lemma_splice_count(existing, id, glance_lines, section, iso_date, display_date, p);
}

/// Filing a capture keeps everything else on the day note: a non-blank
/// line of the page that is neither one of this capture's glance lines nor
/// inside its section occurs on the spliced page at least as often as it
/// did among those lines. Hand-written text, other captures' glance lines
/// and sections all survive.
pub proof fn law_splice_keeps_the_rest(
    existing: Seq<char>,
    id: Seq<char>,
    glance_lines: Seq<char>,
    section: Seq<char>,
    iso_date: Seq<char>,
    display_date: Seq<char>,
    line: Seq<char>,
)
    requires
        !is_blank(line),
    ensures
        count_lines(
            splice_lines(existing, id, glance_lines, section, iso_date, display_date),
            |l: Seq<char>| l == line,
        ) >= count_lines(splice_kept(lines(existing), id, 0, false), |l: Seq<char>| l == line),
{
    lemma_splice_count(existing, id, glance_lines, section, iso_date, display_date, |l: Seq<char>| l == line);
}

/// Refiling a capture never duplicates it: the spliced page holds exactly
/// as many glance lines of the capture as the new glance text brings, and
/// exactly as many section headings of it as the new section has, however
/// many the page held before.
pub proof fn law_splice_replaces_the_capture(
    existing: Seq<char>,
    id: Seq<char>,
    glance_lines: Seq<char>,
    section: Seq<char>,
    iso_date: Seq<char>,
    display_date: Seq<char>,
)
    ensures
        count_lines(
            splice_lines(existing, id, glance_lines, section, iso_date, display_date),
            glance_line_of(id),
        ) == count_lines(nonempty_lines(lines(glance_lines)), glance_line_of(id))
            + count_lines(lines(section), glance_line_of(id)),
        count_lines(
            splice_lines(existing, id, glance_lines, section, iso_date, display_date),
            heading_line_of(id),
        ) == count_lines(nonempty_lines(lines(glance_lines)), heading_line_of(id))
            + count_lines(lines(section), heading_line_of(id)),
{
    lemma_splice_owned_count(existing, id, glance_lines, section, iso_date, display_date, glance_line_of(id));
    lemma_splice_owned_count(existing, id, glance_lines, section, iso_date, display_date, heading_line_of(id));
}


/// How many lines satisfy `p` is how long their filtered run is.
proof fn lemma_count_is_filter_len(ls: Seq<Seq<char>>, p: spec_fn(Seq<char>) -> bool)
    ensures
        count_lines(ls, p) == ls.filter(p).len(),
    decreases ls.len(),
{
    reveal(Seq::filter);
    if ls.len() > 0 {
        lemma_count_is_filter_len(ls.drop_last(), p);
    }
}

/// Lines `x` put in at `k`: the filtered run is that of the lines before,
/// of `x`, and of the lines after.
proof fn lemma_filter_insert(a: Seq<Seq<char>>, k: int, x: Seq<Seq<char>>, p: spec_fn(Seq<char>) -> bool)
    requires
        0 <= k <= a.len(),
    ensures
        (a.take(k) + x + a.skip(k)).filter(p) == a.take(k).filter(p) + x.filter(p) + a.skip(k).filter(p),
        a.filter(p) == a.take(k).filter(p) + a.skip(k).filter(p),
{
    Seq::filter_distributes_over_add(a.take(k) + x, a.skip(k), p);
    Seq::filter_distributes_over_add(a.take(k), x, p);
    Seq::filter_distributes_over_add(a.take(k), a.skip(k), p);
    assert(a.take(k) + a.skip(k) =~= a);
}

/// Inserting lines none of which satisfies `p` leaves the filtered run as
/// it was; inserting into lines none of which does gives the insert's run.
proof fn lemma_filter_insert_cases(a: Seq<Seq<char>>, k: int, x: Seq<Seq<char>>, p: spec_fn(Seq<char>) -> bool)
    requires
        0 <= k <= a.len(),
    ensures
        count_lines(x, p) == 0 ==> (a.take(k) + x + a.skip(k)).filter(p) == a.filter(p),
        count_lines(a, p) == 0 ==> (a.take(k) + x + a.skip(k)).filter(p) == x.filter(p),
{
    lemma_filter_insert(a, k, x, p);
    lemma_count_is_filter_len(x, p);
    lemma_count_is_filter_len(a, p);
    Seq::filter_distributes_over_add(a.take(k), a.skip(k), p);
    if count_lines(x, p) == 0 {
        assert(x.filter(p) =~= Seq::<Seq<char>>::empty());
        assert(a.take(k).filter(p) + x.filter(p) =~= a.take(k).filter(p));
    }
    if count_lines(a, p) == 0 {
        assert(a.take(k).filter(p).len() == 0);
        assert(a.skip(k).filter(p).len() == 0);
        assert(a.take(k).filter(p) + x.filter(p) + a.skip(k).filter(p) =~= x.filter(p));
    }
}

/// Blank lines dropped above `f` leave the filtered run of a non-blank kind.
proof fn lemma_filter_drop_blank_before(ks: Seq<Seq<char>>, f: int, p: spec_fn(Seq<char>) -> bool)
    requires
        forall|l: Seq<char>| #[trigger] p(l) ==> !is_blank(l),
    ensures
        drop_blank_before(ks, f).0.filter(p) == ks.filter(p),
    decreases f,
{
    if f > 0 && f <= ks.len() && is_blank(ks[f - 1]) {
        let r = ks.remove(f - 1);
        lemma_count_one(ks[f - 1], p);
        lemma_filter_insert_cases(r, f - 1, seq![ks[f - 1]], p);
        assert(r.take(f - 1) + seq![ks[f - 1]] + r.skip(f - 1) =~= ks);
        lemma_filter_drop_blank_before(r, f - 1, p);
    }
}

/// Filing a capture whose glance text and section are well formed leaves
/// exactly one copy of it: the page's glance lines of the capture are the
/// new ones, in their order, and the page holds one section heading of it.
/// Well formed: every new glance line is the capture's, and the section
/// opens with the capture's heading and holds no other heading or glance
/// line of it.
pub proof fn law_splice_leaves_one_copy(
    existing: Seq<char>,
    id: Seq<char>,
    glance_lines: Seq<char>,
    section: Seq<char>,
    iso_date: Seq<char>,
    display_date: Seq<char>,
)
    requires
        forall|i: int|
            0 <= i < nonempty_lines(lines(glance_lines)).len() ==> is_glance_of(
                #[trigger] nonempty_lines(lines(glance_lines))[i],
                id,
            ),
        lines(section).len() > 0,
        spec_is_day_item_heading(lines(section)[0], id),
        forall|i: int| 1 <= i < lines(section).len() ==> !spec_is_day_item_heading(#[trigger] lines(section)[i], id),
        forall|i: int| 0 <= i < lines(section).len() ==> !is_glance_of(#[trigger] lines(section)[i], id),
    ensures
        splice_lines(existing, id, glance_lines, section, iso_date, display_date).filter(glance_line_of(id))
            == nonempty_lines(lines(glance_lines)),
        count_lines(
            splice_lines(existing, id, glance_lines, section, iso_date, display_date),
            heading_line_of(id),
        ) == 1,
{
    let pg = glance_line_of(id);
    let ph = heading_line_of(id);
    let e: Seq<char> = Seq::empty();
    let ng = nonempty_lines(lines(glance_lines));
    let sl = lines(section);
    lemma_scaffold_owned_by_none(id, iso_date, display_date);
    assert forall|l: Seq<char>| #[trigger] pg(l) implies !is_blank(l) by {
        lemma_owned_lines_not_blank(id, l);
    }
    // the heading: the glance lines bring none, the section one
    lemma_splice_owned_count(existing, id, glance_lines, section, iso_date, display_date, ph);
    assert forall|i: int| 0 <= i < ng.len() implies !ph(#[trigger] ng[i]) by {
        lemma_glance_is_no_heading(ng[i], id);
    }
    lemma_count_none(ng, ph);
    assert(sl =~= seq![sl[0]] + sl.drop_first());
    lemma_count_add(seq![sl[0]], sl.drop_first(), ph);
    lemma_count_one(sl[0], ph);
    assert forall|i: int| 0 <= i < sl.drop_first().len() implies !ph(#[trigger] sl.drop_first()[i]) by {
        assert(sl.drop_first()[i] == sl[i + 1]);
    }
    lemma_count_none(sl.drop_first(), ph);
    // the glance lines, stage by stage
    let kept = splice_kept(lines(existing), id, 0, false);
    lemma_kept_owns_nothing(lines(existing), id, 0, false, pg);
    let ks0 = drop_trailing_blank(kept);
    lemma_count_drop_trailing_blank(kept, pg);
    let ks1 = with_title(ks0, display_date);
    lemma_count_two("# "@ + display_date, e, pg);
    if first_line(ks0, 0, 0, "# "@) is None {
        let at = title_slot(ks0);
        if ks0.len() > 0 && trim(ks0[0]) == "---"@ {
            lemma_first_line_bounds(ks0, 1, 1, "---"@);
        }
        lemma_count_insert(ks0, at, seq!["# "@ + display_date, e], pg);
    }
    assert(count_lines(ks1, pg) == 0);
    let (ks2, g) = with_glance(ks1);
    lemma_count_two("## At a glance"@, e, pg);
    lemma_first_line_bounds(ks1, 0, 1, "## At a glance"@);
    match first_line(ks1, 0, 1, "## At a glance"@) {
        Some(_) => {},
        None => match first_line(ks1, 0, 0, "# "@) {
            Some(t) => {
                lemma_first_line_bounds(ks1, 0, 0, "# "@);
                lemma_skip_blank_bounds(ks1, t + 1);
                lemma_count_insert(ks1, skip_blank(ks1, t + 1), seq!["## At a glance"@, e], pg);
            },
            None => {
                lemma_count_add(ks1, seq!["## At a glance"@], pg);
                lemma_count_one("## At a glance"@, pg);
                assert(ks1.push("## At a glance"@) =~= ks1 + seq!["## At a glance"@]);
            },
        },
    }
    assert(count_lines(ks2, pg) == 0);
    assert(0 <= g < ks2.len());
    let a = glance_slot(ks2, g);
    let ks3 = ks2.take(a) + ng + ks2.skip(a);
    lemma_filter_insert_cases(ks2, a, ng, pg);
    let fi = footer_index(ks3);
    lemma_footer_index_bounds(ks3);
    lemma_first_line_bounds(ks3, 0, 2, "Raw: [[raw/"@);
    let (ks4, f) = drop_blank_before(ks3, fi);
    lemma_filter_drop_blank_before(ks3, fi, pg);
    lemma_drop_blank_before_bounds(ks3, fi);
    let sec = seq![e] + sl;
    lemma_count_add(seq![e], sl, pg);
    lemma_count_one(e, pg);
    lemma_count_none(sl, pg);
    let ks5 = ks4.take(f) + sec + ks4.skip(f);
    lemma_filter_insert_cases(ks4, f, sec, pg);
    if first_line(ks5, 0, 2, "Raw: [[raw/"@) is None {
        let foot = raw_footer(ks5, iso_date);
        lemma_raw_footer_parts(ks5, iso_date);
        assert forall|k: int| 0 <= k < foot.len() implies !pg(#[trigger] foot[k]) by {}
        lemma_count_none(foot, pg);
        lemma_filter_insert_cases(ks5, ks5.len() as int, foot, pg);
        assert(ks5.take(ks5.len() as int) + foot + ks5.skip(ks5.len() as int) =~= ks5 + foot);
    }
    lemma_filter_all(ng, pg);
}

/// A run in which every line satisfies `p` filters to itself.
proof fn lemma_filter_all(ls: Seq<Seq<char>>, p: spec_fn(Seq<char>) -> bool)
    requires
        forall|i: int| 0 <= i < ls.len() ==> p(#[trigger] ls[i]),
    ensures
        ls.filter(p) == ls,
    decreases ls.len(),
{
    reveal(Seq::filter);
    if ls.len() > 0 {
        assert forall|i: int| 0 <= i < ls.drop_last().len() implies p(#[trigger] ls.drop_last()[i]) by {
            assert(ls.drop_last()[i] == ls[i]);
        }
        lemma_filter_all(ls.drop_last(), p);
        assert(p(ls[ls.len() - 1]));
        assert(ls.drop_last().push(ls.last()) =~= ls);
    }
}

/// A run in which no line satisfies `p` counts none.
proof fn lemma_count_none(ls: Seq<Seq<char>>, p: spec_fn(Seq<char>) -> bool)
    requires
        forall|i: int| 0 <= i < ls.len() ==> !p(#[trigger] ls[i]),
    ensures
        count_lines(ls, p) == 0,
    decreases ls.len(),
{
    if ls.len() > 0 {
        assert forall|i: int| 0 <= i < ls.drop_last().len() implies !p(#[trigger] ls.drop_last()[i]) by {
            assert(ls.drop_last()[i] == ls[i]);
        }
        lemma_count_none(ls.drop_last(), p);
        assert(!p(ls[ls.len() - 1]));
    }
}

/// A glance line is never a section heading: one starts `- <!--` after its
/// indent, the other `## ` at once.
proof fn lemma_glance_is_no_heading(l: Seq<char>, id: Seq<char>)
    requires
        is_glance_of(l, id),
    ensures
        !spec_is_day_item_heading(l, id),
{
    reveal_strlit("## ");
    reveal_strlit("- <!-- item:");
    if spec_is_day_item_heading(l, id) {
        assert(l.take(3)[0] == '#');
        assert(l[0] == '#');
        lemma_trim_start_edges(l);
        let t = trim_start(l);
        assert(t.take(glance_prefix(id).len() as int)[0] == '-');
        assert(t[0] == '-');
    }
}


/// `s` can be had from `t` by leaving lines out: its lines occur in `t` in
/// the same order.
pub open spec fn is_subseq(s: Seq<Seq<char>>, t: Seq<Seq<char>>) -> bool
    decreases t.len(),
{
    if s.len() == 0 {
        true
    } else if t.len() == 0 {
        false
    } else {
        (s.last() == t.last() && is_subseq(s.drop_last(), t.drop_last())) || is_subseq(s, t.drop_last())
    }
}

/// The non-blank lines of a run, in order.
pub open spec fn solid_lines(ls: Seq<Seq<char>>) -> Seq<Seq<char>> {
    ls.filter(|l: Seq<char>| !is_blank(l))
}

proof fn lemma_solid_subseq(ls: Seq<Seq<char>>)
    ensures
        is_subseq(solid_lines(ls), ls),
        forall|i: int| 0 <= i < solid_lines(ls).len() ==> !is_blank(#[trigger] solid_lines(ls)[i]),
    decreases ls.len(),
{
    reveal(Seq::filter);
    if ls.len() > 0 {
        lemma_solid_subseq(ls.drop_last());
        let f0 = solid_lines(ls.drop_last());
        if !is_blank(ls.last()) {
            assert(solid_lines(ls) == f0.push(ls.last()));
            assert(f0.push(ls.last()).drop_last() =~= f0);
            assert forall|i: int| 0 <= i < solid_lines(ls).len() implies !is_blank(#[trigger] solid_lines(ls)[i]) by {
                if i < f0.len() {
                    assert(solid_lines(ls)[i] == f0[i]);
                }
            }
        } else {
            assert(solid_lines(ls) == f0);
            if f0.len() > 0 {
                assert(is_subseq(f0, ls.drop_last()));
            }
        }
    }
}

/// One line put in anywhere keeps a subsequence one.
proof fn lemma_subseq_insert(s: Seq<Seq<char>>, t: Seq<Seq<char>>, j: int, y: Seq<char>)
    requires
        is_subseq(s, t),
        0 <= j <= t.len(),
    ensures
        is_subseq(s, t.insert(j, y)),
    decreases t.len(),
{
    let u = t.insert(j, y);
    if s.len() > 0 {
        if j == t.len() {
            assert(u.drop_last() =~= t);
        } else {
            assert(u.last() == t.last());
            assert(u.drop_last() =~= t.drop_last().insert(j, y));
            if s.last() == t.last() && is_subseq(s.drop_last(), t.drop_last()) {
                lemma_subseq_insert(s.drop_last(), t.drop_last(), j, y);
            } else {
                lemma_subseq_insert(s, t.drop_last(), j, y);
            }
        }
    }
}

/// Lines put in at `k` keep a subsequence one.
proof fn lemma_subseq_insert_run(s: Seq<Seq<char>>, t: Seq<Seq<char>>, k: int, x: Seq<Seq<char>>)
    requires
        is_subseq(s, t),
        0 <= k <= t.len(),
    ensures
        is_subseq(s, t.take(k) + x + t.skip(k)),
    decreases x.len(),
{
    if x.len() == 0 {
        assert(t.take(k) + x + t.skip(k) =~= t);
    } else {
        let x0 = x.drop_last();
        lemma_subseq_insert_run(s, t, k, x0);
        let u = t.take(k) + x0 + t.skip(k);
        lemma_subseq_insert(s, u, k + x0.len(), x.last());
        assert(u.insert(k + x0.len(), x.last()) =~= t.take(k) + x + t.skip(k));
    }
}

/// A blank line taken out keeps a subsequence of non-blank lines one.
proof fn lemma_subseq_remove_blank(s: Seq<Seq<char>>, t: Seq<Seq<char>>, k: int)
    requires
        is_subseq(s, t),
        0 <= k < t.len(),
        is_blank(t[k]),
        forall|i: int| 0 <= i < s.len() ==> !is_blank(#[trigger] s[i]),
    ensures
        is_subseq(s, t.remove(k)),
    decreases t.len(),
{
    if s.len() > 0 {
        assert(!is_blank(s[s.len() - 1]));
        if k == t.len() - 1 {
            assert(t.remove(k) =~= t.drop_last());
        } else {
            let u = t.remove(k);
            assert(u.last() == t.last());
            assert(u.drop_last() =~= t.drop_last().remove(k));
            assert(t.drop_last()[k] == t[k]);
            if s.last() == t.last() && is_subseq(s.drop_last(), t.drop_last()) {
                assert forall|i: int| 0 <= i < s.drop_last().len() implies !is_blank(#[trigger] s.drop_last()[i]) by {
                    assert(s.drop_last()[i] == s[i]);
                }
                lemma_subseq_remove_blank(s.drop_last(), t.drop_last(), k);
            } else {
                lemma_subseq_remove_blank(s, t.drop_last(), k);
            }
        }
    }
}

proof fn lemma_subseq_drop_trailing_blank(s: Seq<Seq<char>>, t: Seq<Seq<char>>)
    requires
        is_subseq(s, t),
        forall|i: int| 0 <= i < s.len() ==> !is_blank(#[trigger] s[i]),
    ensures
        is_subseq(s, drop_trailing_blank(t)),
    decreases t.len(),
{
    if t.len() > 0 && is_blank(t.last()) {
        lemma_subseq_remove_blank(s, t, t.len() - 1);
        assert(t.remove(t.len() - 1) =~= t.drop_last());
        lemma_subseq_drop_trailing_blank(s, t.drop_last());
    }
}

proof fn lemma_subseq_drop_blank_before(s: Seq<Seq<char>>, t: Seq<Seq<char>>, f: int)
    requires
        is_subseq(s, t),
        forall|i: int| 0 <= i < s.len() ==> !is_blank(#[trigger] s[i]),
    ensures
        is_subseq(s, drop_blank_before(t, f).0),
    decreases f,
{
    if f > 0 && f <= t.len() && is_blank(t[f - 1]) {
        lemma_subseq_remove_blank(s, t, f - 1);
        lemma_subseq_drop_blank_before(s, t.remove(f - 1), f - 1);
    }
}

/// Filing a capture keeps everything else in its place: the non-blank lines
/// of the page that are neither this capture's glance lines nor inside its
/// section come back on the spliced page in the same order. Hand-written
/// text and other captures survive unchanged and unmoved relative to each
/// other.
pub proof fn law_splice_keeps_the_order(
    existing: Seq<char>,
    id: Seq<char>,
    glance_lines: Seq<char>,
    section: Seq<char>,
    iso_date: Seq<char>,
    display_date: Seq<char>,
)
    ensures
        is_subseq(
            solid_lines(splice_kept(lines(existing), id, 0, false)),
            splice_lines(existing, id, glance_lines, section, iso_date, display_date),
        ),
{
    let e: Seq<char> = Seq::empty();
    let kept = splice_kept(lines(existing), id, 0, false);
    let k = solid_lines(kept);
    lemma_solid_subseq(kept);
    let ks0 = drop_trailing_blank(kept);
    lemma_subseq_drop_trailing_blank(k, kept);
    let ks1 = with_title(ks0, display_date);
    if first_line(ks0, 0, 0, "# "@) is None {
        let at = title_slot(ks0);
        if ks0.len() > 0 && trim(ks0[0]) == "---"@ {
            lemma_first_line_bounds(ks0, 1, 1, "---"@);
        }
        lemma_subseq_insert_run(k, ks0, at, seq!["# "@ + display_date, e]);
    }
    let (ks2, g) = with_glance(ks1);
    lemma_first_line_bounds(ks1, 0, 1, "## At a glance"@);
    match first_line(ks1, 0, 1, "## At a glance"@) {
        Some(_) => {},
        None => match first_line(ks1, 0, 0, "# "@) {
            Some(t) => {
                lemma_first_line_bounds(ks1, 0, 0, "# "@);
                lemma_skip_blank_bounds(ks1, t + 1);
                lemma_subseq_insert_run(k, ks1, skip_blank(ks1, t + 1), seq!["## At a glance"@, e]);
            },
            None => {
                lemma_subseq_insert(k, ks1, ks1.len() as int, "## At a glance"@);
                assert(ks1.insert(ks1.len() as int, "## At a glance"@) =~= ks1.push("## At a glance"@));
            },
        },
    }
    assert(0 <= g < ks2.len());
    let a = glance_slot(ks2, g);
    let ks3 = ks2.take(a) + nonempty_lines(lines(glance_lines)) + ks2.skip(a);
    lemma_subseq_insert_run(k, ks2, a, nonempty_lines(lines(glance_lines)));
    let fi = footer_index(ks3);
    lemma_footer_index_bounds(ks3);
    lemma_first_line_bounds(ks3, 0, 2, "Raw: [[raw/"@);
    let (ks4, f) = drop_blank_before(ks3, fi);
    lemma_subseq_drop_blank_before(k, ks3, fi);
    lemma_drop_blank_before_bounds(ks3, fi);
    let ks5 = ks4.take(f) + (seq![e] + lines(section)) + ks4.skip(f);
    lemma_subseq_insert_run(k, ks4, f, seq![e] + lines(section));
    if first_line(ks5, 0, 2, "Raw: [[raw/"@) is None {
        lemma_subseq_insert_run(k, ks5, ks5.len() as int, raw_footer(ks5, iso_date));
        assert(ks5.take(ks5.len() as int) + raw_footer(ks5, iso_date) + ks5.skip(ks5.len() as int) =~= ks5
            + raw_footer(ks5, iso_date));
    }
}


/// A `Raw: [[raw/…]]` footer line.
pub open spec fn raw_line(l: Seq<char>) -> bool {
    line_test(l, 2, "Raw: [[raw/"@)
}

/// Only blank lines follow a footer line.
pub open spec fn footer_trails(ls: Seq<Seq<char>>) -> bool {
    forall|i: int, k: int|
        #![trigger ls[i], ls[k]]
        0 <= i < k < ls.len() && raw_line(ls[i]) ==> is_blank(ls[k])
}

proof fn lemma_raw_line_solid(l: Seq<char>)
    ensures
        raw_line(l) ==> !is_blank(l),
{
    reveal_strlit("Raw: [[raw/");
}

/// A line that opens with a character other than `R` and not with
/// whitespace is no footer line, nor blank.
proof fn lemma_not_raw(l: Seq<char>)
    requires
        l.len() > 0,
        !is_ws(l[0]),
        l[0] != 'R',
    ensures
        !raw_line(l),
        !is_blank(l),
{
    reveal_strlit("Raw: [[raw/");
    lemma_solid_line(l);
    lemma_trim_end_edges(l);
    lemma_trim_end_keeps(l, 0);
    assert(trim(l)[0] == l[0]);
    if raw_line(l) {
        assert(trim(l).take(11)[0] == "Raw: [[raw/"@[0]);
    }
}

proof fn lemma_short_not_raw(l: Seq<char>)
    requires
        trim(l).len() < 11 || trim(l)[0] != 'R',
    ensures
        !raw_line(l),
{
    reveal_strlit("Raw: [[raw/");
    if raw_line(l) {
        assert(trim(l).take(11)[0] == "Raw: [[raw/"@[0]);
    }
}

proof fn lemma_first_line_hit(ls: Seq<Seq<char>>, i: int, kind: int, p: Seq<char>)
    ensures
        first_line(ls, i, kind, p) matches Some(k) ==> line_test(ls[k], kind, p),
    decreases ls.len() - i,
{
    if 0 <= i < ls.len() && !line_test(ls[i], kind, p) {
        lemma_first_line_hit(ls, i + 1, kind, p);
    }
}

proof fn lemma_kept_trails(ls: Seq<Seq<char>>, id: Seq<char>, i: int, skipping: bool)
    requires
        footer_trails(ls),
        0 <= i,
    ensures
        footer_trails(splice_kept(ls, id, i, skipping)),
        (forall|n: int| i <= n < ls.len() ==> is_blank(#[trigger] ls[n])) ==> forall|m: int|
            0 <= m < splice_kept(ls, id, i, skipping).len() ==> is_blank(
                #[trigger] splice_kept(ls, id, i, skipping)[m],
            ),
    decreases ls.len() - i,
{
    if i >= ls.len() {
    } else if skipping && !ends_section(ls, i) {
        lemma_kept_trails(ls, id, i + 1, true);
    } else if is_glance_of(ls[i], id) {
        lemma_kept_trails(ls, id, i + 1, false);
    } else if spec_is_day_item_heading(ls[i], id) {
        lemma_kept_trails(ls, id, i + 1, true);
    } else {
        lemma_kept_trails(ls, id, i + 1, false);
        let r = splice_kept(ls, id, i + 1, false);
        let c = seq![ls[i]] + r;
        assert(splice_kept(ls, id, i, skipping) == c);
        assert forall|a: int, b: int| 0 <= a < b < c.len() && raw_line(#[trigger] c[a]) implies is_blank(
            #[trigger] c[b],
        ) by {
            assert(c[b] == r[b - 1]);
            if a == 0 {
                assert(c[0] == ls[i]);
                assert forall|n: int| i + 1 <= n < ls.len() implies is_blank(#[trigger] ls[n]) by {
                    assert(ls[i] == ls[i] && ls[n] == ls[n]);
                }
            } else {
                assert(c[a] == r[a - 1]);
            }
        }
        if forall|n: int| i <= n < ls.len() ==> is_blank(#[trigger] ls[n]) {
            assert forall|n: int| i + 1 <= n < ls.len() implies is_blank(#[trigger] ls[n]) by {}
            assert(is_blank(ls[i]));
            assert forall|m: int| 0 <= m < c.len() implies is_blank(#[trigger] c[m]) by {
                if m > 0 {
                    assert(c[m] == r[m - 1]);
                }
            }
        }
    }
}

proof fn lemma_trails_remove(t: Seq<Seq<char>>, k: int)
    requires
        footer_trails(t),
        0 <= k < t.len(),
    ensures
        footer_trails(t.remove(k)),
{
    let u = t.remove(k);
    assert forall|a: int, b: int| 0 <= a < b < u.len() && raw_line(#[trigger] u[a]) implies is_blank(
        #[trigger] u[b],
    ) by {
        let a0 = if a < k { a } else { a + 1 };
        let b0 = if b < k { b } else { b + 1 };
        assert(u[a] == t[a0] && u[b] == t[b0]);
    }
}

proof fn lemma_trails_drop_trailing_blank(t: Seq<Seq<char>>)
    requires
        footer_trails(t),
    ensures
        footer_trails(drop_trailing_blank(t)),
    decreases t.len(),
{
    if t.len() > 0 && is_blank(t.last()) {
        lemma_trails_remove(t, t.len() - 1);
        assert(t.remove(t.len() - 1) =~= t.drop_last());
        lemma_trails_drop_trailing_blank(t.drop_last());
    }
}

proof fn lemma_trails_drop_blank_before(t: Seq<Seq<char>>, f: int)
    requires
        footer_trails(t),
    ensures
        footer_trails(drop_blank_before(t, f).0),
        drop_blank_before(t, f).1 <= f,
        0 <= drop_blank_before(t, f).1 ==> drop_blank_before(t, f).0.take(drop_blank_before(t, f).1)
            == t.take(drop_blank_before(t, f).1),
    decreases f,
{
    if f > 0 && f <= t.len() && is_blank(t[f - 1]) {
        lemma_trails_remove(t, f - 1);
        lemma_trails_drop_blank_before(t.remove(f - 1), f - 1);
        let g = drop_blank_before(t, f).1;
        if 0 <= g {
            assert(t.remove(f - 1).take(g) =~= t.take(g));
        }
    }
}

/// Lines with no footer line among them, put in where no footer line
/// comes before, keep only blank lines after a footer line.
proof fn lemma_trails_insert(t: Seq<Seq<char>>, k: int, x: Seq<Seq<char>>)
    requires
        footer_trails(t),
        0 <= k <= t.len(),
        forall|i: int| 0 <= i < k ==> !raw_line(#[trigger] t[i]),
        forall|i: int| 0 <= i < x.len() ==> !raw_line(#[trigger] x[i]),
    ensures
        footer_trails(t.take(k) + x + t.skip(k)),
{
    let u = t.take(k) + x + t.skip(k);
    let n = x.len();
    assert forall|a: int, b: int| 0 <= a < b < u.len() && raw_line(#[trigger] u[a]) implies is_blank(
        #[trigger] u[b],
    ) by {
        if a < k {
            assert(u[a] == t[a]);
        } else if a < k + n {
            assert(u[a] == x[a - k]);
        } else {
            assert(u[a] == t[a - n]);
            assert(u[b] == t[b - n]);
        }
    }
}

proof fn lemma_first_line_some(ls: Seq<Seq<char>>, i: int, k: int, kind: int, p: Seq<char>)
    requires
        0 <= i <= k < ls.len(),
        line_test(ls[k], kind, p),
    ensures
        first_line(ls, i, kind, p) is Some,
    decreases k - i,
{
    if !line_test(ls[i], kind, p) {
        lemma_first_line_some(ls, i + 1, k, kind, p);
    }
}

proof fn lemma_first_line_before(ls: Seq<Seq<char>>, i: int, kind: int, p: Seq<char>)
    requires
        0 <= i,
    ensures
        forall|m: int|
            i <= m < ls.len() && (first_line(ls, i, kind, p) matches Some(j) ==> m < j) ==> !line_test(
                #[trigger] ls[m],
                kind,
                p,
            ),
    decreases ls.len() - i,
{
    if i < ls.len() && !line_test(ls[i], kind, p) {
        lemma_first_line_before(ls, i + 1, kind, p);
    }
}

proof fn lemma_skip_blank_run(ls: Seq<Seq<char>>, j: int)
    requires
        0 <= j,
    ensures
        forall|m: int| j <= m < skip_blank(ls, j) ==> is_blank(#[trigger] ls[m]),
    decreases ls.len() - j,
{
    if j < ls.len() && is_blank(ls[j]) {
        lemma_skip_blank_run(ls, j + 1);
    }
}

/// Filing a capture keeps the footer single and last: when nothing but
/// blank lines follows a `Raw: [[raw/…]]` line on the page, and neither
/// the new glance text nor the new section holds such a line, the spliced
/// page has exactly one footer line, with only blank lines after it.
pub proof fn law_splice_keeps_one_footer_last(
    existing: Seq<char>,
    id: Seq<char>,
    glance_lines: Seq<char>,
    section: Seq<char>,
    iso_date: Seq<char>,
    display_date: Seq<char>,
)
    requires
        footer_trails(lines(existing)),
        forall|i: int|
            0 <= i < nonempty_lines(lines(glance_lines)).len() ==> !raw_line(
                #[trigger] nonempty_lines(lines(glance_lines))[i],
            ),
        forall|i: int| 0 <= i < lines(section).len() ==> !raw_line(#[trigger] lines(section)[i]),
    ensures
        ({
            let r = splice_lines(existing, id, glance_lines, section, iso_date, display_date);
            &&& footer_trails(r)
            &&& exists|j: int| 0 <= j < r.len() && raw_line(#[trigger] r[j])
            &&& forall|i: int, k: int|
                #![trigger r[i], r[k]]
                0 <= i < r.len() && 0 <= k < r.len() && raw_line(r[i]) && raw_line(r[k]) ==> i == k
        }),
{
    reveal_strlit("# ");
    reveal_strlit("## At a glance");
    reveal_strlit("---");
    reveal_strlit("Raw: [[raw/");
    reveal_strlit("]]");
    let e: Seq<char> = Seq::empty();
    lemma_short_not_raw(e);
    let title = "# "@ + display_date;
    lemma_not_raw(title);
    let gh = "## At a glance"@;
    lemma_not_raw(gh);
    lemma_not_raw("---"@);
    let kept = splice_kept(lines(existing), id, 0, false);
    lemma_kept_trails(lines(existing), id, 0, false);
    let ks0 = drop_trailing_blank(kept);
    lemma_trails_drop_trailing_blank(kept);
    // the title
    let ks1 = with_title(ks0, display_date);
    if first_line(ks0, 0, 0, "# "@) is None {
        let at = title_slot(ks0);
        if ks0.len() > 0 && trim(ks0[0]) == "---"@ {
            lemma_first_line_bounds(ks0, 1, 1, "---"@);
            if let Some(p) = first_line(ks0, 1, 1, "---"@) {
                lemma_first_line_hit(ks0, 1, 1, "---"@);
                lemma_short_not_raw(ks0[p]);
                assert(!is_blank(ks0[p]));
                assert forall|i: int| 0 <= i < at implies !raw_line(#[trigger] ks0[i]) by {
                    if i < p && raw_line(ks0[i]) {
                        assert(ks0[i] == ks0[i] && ks0[p] == ks0[p]);
                    }
                    if i == p {
                        lemma_short_not_raw(ks0[p]);
                    }
                }
            }
        }
        lemma_trails_insert(ks0, at, seq![title, e]);
        let ks1_ = ks0.take(at) + seq![title, e] + ks0.skip(at);
        assert(ks1_[at] == title);
        assert(ks1 == ks1_);
        assert(title.take(2) =~= "# "@);
        lemma_first_line_some(ks1, 0, at, 0, "# "@);
    }
    assert(footer_trails(ks1));
    assert(first_line(ks1, 0, 0, "# "@) is Some);
    // the glance heading
    let (ks2, g) = with_glance(ks1);
    lemma_first_line_bounds(ks1, 0, 1, "## At a glance"@);
    lemma_first_line_bounds(ks1, 0, 0, "# "@);
    let t = first_line(ks1, 0, 0, "# "@)->0;
    match first_line(ks1, 0, 1, "## At a glance"@) {
        Some(g0) => {
            lemma_first_line_hit(ks1, 0, 1, "## At a glance"@);
            assert(trim(ks1[g0])[0] == '#');
            lemma_short_not_raw(ks1[g0]);
            assert(!is_blank(ks1[g0]));
        },
        None => {
            let at = skip_blank(ks1, t + 1);
            lemma_skip_blank_bounds(ks1, t + 1);
            lemma_skip_blank_run(ks1, t + 1);
            lemma_first_line_hit(ks1, 0, 0, "# "@);
            assert(ks1[t].take(2)[0] == ks1[t][0]);
            lemma_not_raw(ks1[t]);
            assert forall|i: int| 0 <= i < at implies !raw_line(#[trigger] ks1[i]) by {
                if i < t && raw_line(ks1[i]) {
                    assert(ks1[i] == ks1[i] && ks1[t] == ks1[t]);
                }
                if t < i {
                    lemma_raw_line_solid(ks1[i]);
                }
            }
            lemma_trails_insert(ks1, at, seq![gh, e]);
            assert(ks2 == ks1.take(at) + seq![gh, e] + ks1.skip(at));
            assert(ks2[at] == gh);
        },
    }
    assert(footer_trails(ks2));
    assert(0 <= g < ks2.len());
    assert(!is_blank(ks2[g]) && !raw_line(ks2[g]));
    // the glance lines
    let a = glance_slot(ks2, g);
    let ng = nonempty_lines(lines(glance_lines));
    assert forall|i: int| 0 <= i < a implies !raw_line(#[trigger] ks2[i]) by {
        if i < g && raw_line(ks2[i]) {
            assert(ks2[i] == ks2[i] && ks2[g] == ks2[g]);
        }
        if i == g + 1 {
            lemma_raw_line_solid(ks2[i]);
        }
    }
    let ks3 = ks2.take(a) + ng + ks2.skip(a);
    lemma_trails_insert(ks2, a, ng);
    // blank lines above the footer
    let fi = footer_index(ks3);
    lemma_footer_index_bounds(ks3);
    lemma_first_line_bounds(ks3, 0, 2, "Raw: [[raw/"@);
    lemma_first_line_before(ks3, 0, 2, "Raw: [[raw/"@);
    assert forall|i: int| 0 <= i < fi implies !raw_line(#[trigger] ks3[i]) by {}
    let (ks4, f) = drop_blank_before(ks3, fi);
    lemma_trails_drop_blank_before(ks3, fi);
    lemma_drop_blank_before_bounds(ks3, fi);
    assert forall|i: int| 0 <= i < f implies !raw_line(#[trigger] ks4[i]) by {
        assert(ks4.take(f)[i] == ks3.take(f)[i]);
    }
    // the section
    let sec = seq![e] + lines(section);
    assert forall|i: int| 0 <= i < sec.len() implies !raw_line(#[trigger] sec[i]) by {
        if i > 0 {
            assert(sec[i] == lines(section)[i - 1]);
        }
    }
    let ks5 = ks4.take(f) + sec + ks4.skip(f);
    lemma_trails_insert(ks4, f, sec);
    let r = splice_lines(existing, id, glance_lines, section, iso_date, display_date);
    // the footer
    match first_line(ks5, 0, 2, "Raw: [[raw/"@) {
        Some(j) => {
            lemma_first_line_bounds(ks5, 0, 2, "Raw: [[raw/"@);
            lemma_first_line_hit(ks5, 0, 2, "Raw: [[raw/"@);
            assert(r == ks5);
            assert(raw_line(r[j]));
        },
        None => {
            lemma_first_line_before(ks5, 0, 2, "Raw: [[raw/"@);
            let foot = raw_footer(ks5, iso_date);
            lemma_raw_footer_parts(ks5, iso_date);
            let last = "Raw: [[raw/"@ + iso_date + "]]"@;
            assert(r == ks5 + foot);
            lemma_solid_line(last);
            lemma_trim_end_edges(last);
            assert(last.last() == ']');
            assert(trim_end(last) == last);
            assert(last.take(11) =~= "Raw: [[raw/"@);
            assert(raw_line(last));
            assert(r[r.len() - 1] == last);
            assert forall|a: int, b: int| 0 <= a < b < r.len() && raw_line(#[trigger] r[a]) implies is_blank(
                #[trigger] r[b],
            ) by {
                if a < ks5.len() {
                    assert(r[a] == ks5[a]);
                } else {
                    assert(r[a] == foot[a - ks5.len()]);
                    if a - ks5.len() < foot.len() - 1 {
                        assert(foot[a - ks5.len()] == e || foot[a - ks5.len()] == "---"@);
                    }
                }
            }
        },
    }
    assert forall|i: int, k: int|
        0 <= i < r.len() && 0 <= k < r.len() && raw_line(#[trigger] r[i]) && raw_line(#[trigger] r[k]) implies i == k by {
        lemma_raw_line_solid(r[i]);
        lemma_raw_line_solid(r[k]);
    }
}


// ------------------------------------------------------------------ filing a capture again

/// The glance lines of a capture's summary bullets: one per non-blank one.
pub open spec fn glance_seq(bullets: Seq<Seq<char>>, id: Seq<char>) -> Seq<Seq<char>>
    decreases bullets.len(),
{
    if bullets.len() == 0 {
        seq![]
    } else {
        let t = trim(bullets.last());
        glance_seq(bullets.drop_last(), id) + if t.len() > 0 {
            seq![glance_prefix(id) + " "@ + t]
        } else {
            seq![]
        }
    }
}

/// The lines of `day_glance`.
pub open spec fn day_glance_lines(bullets: Seq<Seq<char>>, id: Seq<char>, title: Seq<char>) -> Seq<Seq<char>> {
    let g = glance_seq(bullets, id);
    if g.len() == 0 {
        seq![glance_prefix(id) + " "@ + title]
    } else {
        g
    }
}

/// The heading of a capture's section.
pub open spec fn day_heading(display_time: Seq<char>, id: Seq<char>, title: Seq<char>) -> Seq<char> {
    "## "@ + display_time + " · `"@ + id + "` · "@ + title
}

/// The lines of `day_section`.
pub open spec fn day_section_lines(display_time: Seq<char>, id: Seq<char>, title: Seq<char>, body: Seq<char>) -> Seq<
    Seq<char>,
> {
    let b = trim(body);
    seq![day_heading(display_time, id, title), Seq::<char>::empty()] + if b.len() > 0 {
        lines(b) + seq![Seq::<char>::empty()]
    } else {
        seq![]
    }
}

/// The lines above a fresh note's glance lines.
pub open spec fn note_head(date: Seq<char>, display_date: Seq<char>) -> Seq<Seq<char>> {
    seq![
        "---"@,
        "date: "@ + date,
        "type: daily"@,
        "---"@,
        Seq::<char>::empty(),
        "# "@ + display_date,
        Seq::<char>::empty(),
        "## At a glance"@,
        Seq::<char>::empty(),
    ]
}

/// The footer of a fresh note.
pub open spec fn note_foot(date: Seq<char>) -> Seq<Seq<char>> {
    seq!["---"@, Seq::<char>::empty(), "Raw: [[raw/"@ + date + "]]"@]
}

pub proof fn lemma_lines_nl_add(a: Seq<Seq<char>>, b: Seq<Seq<char>>)
    ensures
        lines_nl(a + b) == lines_nl(a) + lines_nl(b),
    decreases b.len(),
{
    if b.len() == 0 {
        assert(a + b =~= a);
        assert(lines_nl(a) + lines_nl(b) =~= lines_nl(a));
    } else {
        lemma_lines_nl_add(a, b.drop_last());
        assert((a + b).drop_last() =~= a + b.drop_last());
        assert((a + b).last() == b.last());
        assert(lines_nl(a + b) =~= lines_nl(a) + lines_nl(b));
    }
}

proof fn lemma_not_starts(l: Seq<char>, p: Seq<char>)
    requires
        l.len() > 0,
        p.len() > 0,
        l[0] != p[0],
    ensures
        !starts_with(l, p),
{
    if starts_with(l, p) {
        assert(l.take(p.len() as int)[0] == p[0]);
    }
}

/// A line that opens with none of `-`, `#`, `R` or whitespace belongs to
/// no capture and is neither a footer line nor blank.
proof fn lemma_plain_line(l: Seq<char>, id: Seq<char>)
    requires
        l.len() > 0,
        !is_ws(l[0]),
        l[0] != '-',
        l[0] != '#',
        l[0] != 'R',
    ensures
        !is_glance_of(l, id),
        !spec_is_day_item_heading(l, id),
        !raw_line(l),
        !is_blank(l),
{
    reveal_strlit("- <!-- item:");
    reveal_strlit("## ");
    lemma_solid_line(l);
    lemma_not_raw(l);
    assert(glance_prefix(id)[0] == '-');
    lemma_not_starts(l, glance_prefix(id));
    lemma_not_starts(l, "## "@);
}

proof fn lemma_glance_line(id: Seq<char>, x: Seq<char>)
    requires
        clean_line(id),
        clean_line(x),
    ensures
        is_glance_of(glance_prefix(id) + " "@ + x, id),
        clean_line(glance_prefix(id) + " "@ + x),
        (glance_prefix(id) + " "@ + x).len() > 0,
        !raw_line(glance_prefix(id) + " "@ + x),
{
    reveal_strlit("- <!-- item:");
    reveal_strlit(" -->");
    reveal_strlit(" ");
    let l = glance_prefix(id) + " "@ + x;
    assert(l[0] == '-');
    lemma_solid_line(l);
    assert(l.take(glance_prefix(id).len() as int) =~= glance_prefix(id));
    lemma_not_raw(l);
    assert forall|j: int| 0 <= j < l.len() implies l[j] != '\n' && l[j] != '\r' by {
        if j < 12 {
        } else if j < 12 + id.len() {
            assert(l[j] == id[j - 12]);
        } else if j < 12 + id.len() + 5 {
        } else {
            assert(l[j] == x[j - 12 - id.len() - 5]);
        }
    }
}

proof fn lemma_glance_seq(bullets: Seq<Seq<char>>, id: Seq<char>)
    requires
        clean_line(id),
        forall|i: int| 0 <= i < bullets.len() ==> clean_line(#[trigger] trim(bullets[i])),
    ensures
        glance_text(bullets, id) == lines_nl(glance_seq(bullets, id)),
        forall|k: int|
            0 <= k < glance_seq(bullets, id).len() ==> is_glance_of(#[trigger] glance_seq(bullets, id)[k], id)
                && clean_line(glance_seq(bullets, id)[k]) && glance_seq(bullets, id)[k].len() > 0
                && !raw_line(glance_seq(bullets, id)[k]),
    decreases bullets.len(),
{
    reveal_strlit("\n");
    if bullets.len() > 0 {
        let b0 = bullets.drop_last();
        assert forall|i: int| 0 <= i < b0.len() implies clean_line(#[trigger] trim(b0[i])) by {
            assert(b0[i] == bullets[i]);
        }
        lemma_glance_seq(b0, id);
        let t = trim(bullets.last());
        assert(trim(bullets[bullets.len() - 1]) == t);
        let g0 = glance_seq(b0, id);
        if t.len() > 0 {
            let x = glance_prefix(id) + " "@ + t;
            lemma_glance_line(id, t);
            assert(glance_seq(bullets, id) == g0 + seq![x]);
            assert((g0 + seq![x]).drop_last() =~= g0);
            assert(lines_nl(g0 + seq![x]) =~= lines_nl(g0) + x + seq!['\n']);
            assert(glance_text(bullets, id) =~= glance_text(b0, id) + (x + "\n"@));
            assert forall|k: int| 0 <= k < (g0 + seq![x]).len() implies is_glance_of(#[trigger] (g0 + seq![x])[k], id)
                && clean_line((g0 + seq![x])[k]) && (g0 + seq![x])[k].len() > 0 && !raw_line((g0 + seq![x])[k]) by {
                if k < g0.len() {
                    assert((g0 + seq![x])[k] == g0[k]);
                }
            }
        } else {
            assert(glance_seq(bullets, id) =~= g0);
            assert(glance_text(bullets, id) =~= glance_text(b0, id));
        }
    }
}

proof fn lemma_day_glance(bullets: Seq<Seq<char>>, id: Seq<char>, title: Seq<char>)
    requires
        clean_line(id),
        clean_line(title),
        forall|i: int| 0 <= i < bullets.len() ==> clean_line(#[trigger] trim(bullets[i])),
    ensures
        day_glance(bullets, id, title) == lines_nl(day_glance_lines(bullets, id, title)),
        day_glance_lines(bullets, id, title).len() > 0,
        forall|k: int|
            0 <= k < day_glance_lines(bullets, id, title).len() ==> is_glance_of(
                #[trigger] day_glance_lines(bullets, id, title)[k],
                id,
            ) && clean_line(day_glance_lines(bullets, id, title)[k])
                && day_glance_lines(bullets, id, title)[k].len() > 0
                && !raw_line(day_glance_lines(bullets, id, title)[k]),
{
    reveal_strlit("\n");
    lemma_glance_seq(bullets, id);
    let g = glance_seq(bullets, id);
    if g.len() == 0 {
        let x = glance_prefix(id) + " "@ + title;
        lemma_glance_line(id, title);
        assert(lines_nl(g) == Seq::<char>::empty());
        assert(seq![x].drop_last() =~= Seq::<Seq<char>>::empty());
        assert(lines_nl(seq![x]) =~= x + "\n"@);
    } else {
        assert(lines_nl(g) =~= lines_nl(g.drop_last()) + g.last() + seq!['\n']);
    }
}


proof fn lemma_day_section(display_time: Seq<char>, id: Seq<char>, title: Seq<char>, body: Seq<char>)
    requires
        clean_line(day_heading(display_time, id, title)),
        no_cr(trim(body)),
    ensures
        day_section(display_time, id, title, body) == lines_nl(day_section_lines(display_time, id, title, body)),
        forall|k: int|
            0 <= k < day_section_lines(display_time, id, title, body).len() ==> clean_line(
                #[trigger] day_section_lines(display_time, id, title, body)[k],
            ),
{
    reveal_strlit("\n");
    reveal_strlit("\n\n");
    reveal_strlit("## ");
    reveal_strlit(" · `");
    reveal_strlit("` · ");
    let e: Seq<char> = Seq::empty();
    let h = day_heading(display_time, id, title);
    let b = trim(body);
    let two = seq![h, e];
    assert(two.drop_last() =~= seq![h]);
    assert(seq![h].drop_last() =~= Seq::<Seq<char>>::empty());
    assert(lines_nl(Seq::<Seq<char>>::empty()) == Seq::<char>::empty());
    assert(lines_nl(seq![h]) =~= h + seq!['\n']);
    assert(lines_nl(two) == lines_nl(seq![h]) + e + seq!['\n']);
    assert(lines_nl(two) =~= h + "\n\n"@);
    assert(h + "\n\n"@ =~= "## "@ + display_time + " · `"@ + id + "` · "@ + title + "\n\n"@);
    if b.len() > 0 {
        lemma_trim_end_edges(trim_start(body));
        assert(!is_ws(b.last()));
        lemma_lines_nl_lines(b);
        let bl = lines(b) + seq![e];
        assert(bl.drop_last() =~= lines(b));
        assert(lines_nl(bl) =~= b + "\n\n"@);
        lemma_lines_nl_add(two, bl);
        lemma_lines_clean(b);
        assert(day_section_lines(display_time, id, title, body) == two + bl);
        assert forall|k: int| 0 <= k < (two + bl).len() implies clean_line(#[trigger] (two + bl)[k]) by {
            if k >= 2 && k < 2 + lines(b).len() {
                assert((two + bl)[k] == lines(b)[k - 2]);
            }
        }
    } else {
        assert(day_section_lines(display_time, id, title, body) =~= two);
    }
}

/// A fresh note is its head lines, glance lines, a blank line, its section
/// lines and its footer, each ended.
proof fn lemma_note_text(date: Seq<char>, display_date: Seq<char>, gl: Seq<Seq<char>>, sl: Seq<Seq<char>>)
    ensures
        new_day_note(date, display_date, lines_nl(gl), lines_nl(sl)) == lines_nl(
            note_head(date, display_date) + gl + seq![Seq::<char>::empty()] + sl + note_foot(date),
        ),
{
    reveal_strlit("\n");
    let e: Seq<char> = Seq::empty();
    let n = "\n"@;
    assert(n == seq!['\n']);
    let z: Seq<Seq<char>> = Seq::empty();
    assert(lines_nl(z) == e);
    let p1 = z.push("---"@);
    assert(p1.drop_last() =~= z);
    assert(lines_nl(p1) =~= "---"@ + n);
    let p2 = p1.push("date: "@ + date);
    assert(p2.drop_last() =~= p1);
    let p3 = p2.push("type: daily"@);
    assert(p3.drop_last() =~= p2);
    let p4 = p3.push("---"@);
    assert(p4.drop_last() =~= p3);
    let p5 = p4.push(e);
    assert(p5.drop_last() =~= p4);
    assert(lines_nl(p5) =~= lines_nl(p4) + n);
    let p6 = p5.push("# "@ + display_date);
    assert(p6.drop_last() =~= p5);
    let p7 = p6.push(e);
    assert(p7.drop_last() =~= p6);
    assert(lines_nl(p7) =~= lines_nl(p6) + n);
    let p8 = p7.push("## At a glance"@);
    assert(p8.drop_last() =~= p7);
    let p9 = p8.push(e);
    assert(p9.drop_last() =~= p8);
    assert(lines_nl(p9) =~= lines_nl(p8) + n);
    assert(lines_nl(p2) == lines_nl(p1) + ("date: "@ + date) + n);
    assert(lines_nl(p3) == lines_nl(p2) + "type: daily"@ + n);
    assert(lines_nl(p4) == lines_nl(p3) + "---"@ + n);
    assert(lines_nl(p6) == lines_nl(p5) + ("# "@ + display_date) + n);
    assert(lines_nl(p8) == lines_nl(p7) + "## At a glance"@ + n);
    assert(lines_nl(p9) == "---"@ + n + ("date: "@ + date) + n + "type: daily"@ + n + "---"@ + n + n + ("# "@
        + display_date) + n + n + "## At a glance"@ + n + n);
    assert(p9 =~= note_head(date, display_date));
    let f1 = z.push("---"@);
    let f2 = f1.push(e);
    assert(f2.drop_last() =~= f1);
    assert(f1.drop_last() =~= z);
    let f3 = f2.push("Raw: [[raw/"@ + date + "]]"@);
    assert(f3.drop_last() =~= f2);
    assert(f3 =~= note_foot(date));
    assert(lines_nl(f2) =~= "---"@ + n + n);
    let one = z.push(e);
    assert(one.drop_last() =~= z);
    assert(lines_nl(one) =~= n);
    assert(one =~= seq![e]);
    let hd = note_head(date, display_date);
    let ft = note_foot(date);
    lemma_lines_nl_add(hd, gl);
    lemma_lines_nl_add(hd + gl, seq![e]);
    lemma_lines_nl_add(hd + gl + seq![e], sl);
    lemma_lines_nl_add(hd + gl + seq![e] + sl, ft);
    let a = lines_nl(hd);
    assert(new_day_note(date, display_date, lines_nl(gl), lines_nl(sl)) == a + lines_nl(gl) + n + lines_nl(sl)
        + "---"@ + n + n + ("Raw: [[raw/"@ + date + "]]"@) + n);
    assert(a + lines_nl(gl) + n + lines_nl(sl) + "---"@ + n + n + ("Raw: [[raw/"@ + date + "]]"@) + n
        =~= a + lines_nl(gl) + lines_nl(seq![e]) + lines_nl(sl) + lines_nl(ft));
}


proof fn lemma_kept_plain(ls: Seq<Seq<char>>, id: Seq<char>, i: int, j: int)
    requires
        0 <= i <= j <= ls.len(),
        forall|k: int| i <= k < j ==> !is_glance_of(#[trigger] ls[k], id) && !spec_is_day_item_heading(ls[k], id),
    ensures
        splice_kept(ls, id, i, false) == ls.subrange(i, j) + splice_kept(ls, id, j, false),
    decreases j - i,
{
    if i < j {
        lemma_kept_plain(ls, id, i + 1, j);
        assert(ls.subrange(i, j) =~= seq![ls[i]] + ls.subrange(i + 1, j));
        assert(seq![ls[i]] + (ls.subrange(i + 1, j) + splice_kept(ls, id, j, false)) =~= ls.subrange(i, j)
            + splice_kept(ls, id, j, false));
    } else {
        assert(ls.subrange(i, j) + splice_kept(ls, id, j, false) =~= splice_kept(ls, id, j, false));
    }
}

proof fn lemma_kept_glances(ls: Seq<Seq<char>>, id: Seq<char>, i: int, j: int)
    requires
        0 <= i <= j <= ls.len(),
        forall|k: int| i <= k < j ==> is_glance_of(#[trigger] ls[k], id),
    ensures
        splice_kept(ls, id, i, false) == splice_kept(ls, id, j, false),
    decreases j - i,
{
    if i < j {
        lemma_kept_glances(ls, id, i + 1, j);
    }
}

proof fn lemma_kept_skip(ls: Seq<Seq<char>>, id: Seq<char>, k: int, j: int)
    requires
        0 <= k <= j < ls.len(),
        forall|m: int| k <= m < j ==> !ends_section(ls, m),
        ends_section(ls, j),
    ensures
        splice_kept(ls, id, k, true) == splice_kept(ls, id, j, false),
    decreases j - k,
{
    if k < j {
        assert(!ends_section(ls, k));
        lemma_kept_skip(ls, id, k + 1, j);
    }
}

/// A capture's section, from its heading to the line that ends it, is left
/// out of what a splice keeps.
proof fn lemma_kept_section(ls: Seq<Seq<char>>, id: Seq<char>, i: int, j: int)
    requires
        0 <= i < j < ls.len(),
        spec_is_day_item_heading(ls[i], id),
        forall|m: int| i < m < j ==> !ends_section(ls, m),
        ends_section(ls, j),
    ensures
        splice_kept(ls, id, i, false) == splice_kept(ls, id, j, false),
{
    if is_glance_of(ls[i], id) {
        lemma_glance_is_no_heading(ls[i], id);
    }
    lemma_kept_skip(ls, id, i + 1, j);
}

proof fn lemma_first_line_at(ls: Seq<Seq<char>>, i: int, k: int, kind: int, p: Seq<char>)
    requires
        0 <= i <= k < ls.len(),
        forall|m: int| i <= m < k ==> !line_test(#[trigger] ls[m], kind, p),
        line_test(ls[k], kind, p),
    ensures
        first_line(ls, i, kind, p) == Some(k),
    decreases k - i,
{
    if i < k {
        assert(!line_test(ls[i], kind, p));
        lemma_first_line_at(ls, i + 1, k, kind, p);
    }
}

proof fn lemma_nonempty_all(ls: Seq<Seq<char>>)
    requires
        forall|k: int| 0 <= k < ls.len() ==> (#[trigger] ls[k]).len() > 0,
    ensures
        nonempty_lines(ls) == ls,
    decreases ls.len(),
{
    if ls.len() > 0 {
        assert forall|k: int| 0 <= k < ls.drop_last().len() implies (#[trigger] ls.drop_last()[k]).len() > 0 by {
            assert(ls.drop_last()[k] == ls[k]);
        }
        lemma_nonempty_all(ls.drop_last());
        assert(ls[ls.len() - 1].len() > 0);
        assert(ls.drop_last().push(ls.last()) =~= ls);
    }
}

proof fn lemma_clean_concat(a: Seq<char>, b: Seq<char>)
    requires
        clean_line(a),
        clean_line(b),
    ensures
        clean_line(a + b),
{
    assert forall|j: int| 0 <= j < (a + b).len() implies (a + b)[j] != '\n' && (a + b)[j] != '\r' by {
        if j >= a.len() {
            assert((a + b)[j] == b[j - a.len()]);
        }
    }
}

/// The first character of a line that opens with no whitespace survives
/// trimming.
proof fn lemma_trim_head(l: Seq<char>)
    requires
        l.len() > 0,
        !is_ws(l[0]),
    ensures
        trim(l).len() > 0,
        trim(l).len() <= l.len(),
        trim(l) == l.take(trim(l).len() as int),
{
    lemma_solid_line(l);
    lemma_trim_end_edges(l);
    lemma_trim_end_keeps(l, 0);
}

proof fn lemma_raw_of(date: Seq<char>)
    requires
        clean_line(date),
    ensures
        raw_line("Raw: [[raw/"@ + date + "]]"@),
        starts_with(trim("Raw: [[raw/"@ + date + "]]"@), "Raw:"@),
        clean_line("Raw: [[raw/"@ + date + "]]"@),
        !is_blank("Raw: [[raw/"@ + date + "]]"@),
{
    reveal_strlit("Raw: [[raw/");
    reveal_strlit("]]");
    reveal_strlit("Raw:");
    let l = "Raw: [[raw/"@ + date + "]]"@;
    lemma_solid_line(l);
    assert(l.last() == ']');
    assert(trim_end(l) == l);
    assert(trim(l) == l);
    assert(l.take(11) =~= "Raw: [[raw/"@);
    assert(l.take(4) =~= "Raw:"@);
    lemma_clean_concat("Raw: [[raw/"@, date);
    lemma_clean_concat("Raw: [[raw/"@ + date, "]]"@);
}

/// What filing a capture again needs to change nothing: its date, times,
/// id, title and trimmed summary bullets are single lines; its trimmed body
/// has no carriage return and no line that could end its section (a `## `
/// heading, a footer line or a `---` line); and its heading reads back as
/// its own.
pub open spec fn refile_fit(
    date: Seq<char>,
    id: Seq<char>,
    time: Seq<char>,
    title: Seq<char>,
    bullets: Seq<Seq<char>>,
    body: Seq<char>,
    date_fmt: Seq<char>,
    time_fmt: Seq<char>,
) -> bool {
    let t = day_title(title);
    let dt = spec_format_time(time, time_fmt);
    let dd = spec_format_date(date, date_fmt);
    &&& clean_line(date)
    &&& clean_line(dd)
    &&& clean_line(id)
    &&& clean_line(t)
    &&& clean_line(day_heading(dt, id, t))
    &&& forall|i: int| 0 <= i < bullets.len() ==> clean_line(#[trigger] trim(bullets[i]))
    &&& no_cr(trim(body))
    &&& forall|k: int|
        0 <= k < lines(trim(body)).len() ==> !starts_with(#[trigger] lines(trim(body))[k], "## "@) && !raw_line(
            lines(trim(body))[k],
        ) && trim(lines(trim(body))[k]) != "---"@
    &&& spec_is_day_item_heading(day_heading(dt, id, t), id)
}


/// The parts of a fresh note that filing again reads back: single-line
/// date and display date, the capture's glance lines, and a section that
/// opens with the capture's heading and holds nothing that could end it.
pub open spec fn fresh_parts(
    date: Seq<char>,
    display_date: Seq<char>,
    id: Seq<char>,
    gl: Seq<Seq<char>>,
    sl: Seq<Seq<char>>,
) -> bool {
    &&& clean_line(date)
    &&& clean_line(display_date)
    &&& gl.len() > 0
    &&& forall|k: int|
        0 <= k < gl.len() ==> is_glance_of(#[trigger] gl[k], id) && clean_line(gl[k]) && gl[k].len() > 0
            && !raw_line(gl[k])
    &&& sl.len() >= 2
    &&& spec_is_day_item_heading(sl[0], id)
    &&& forall|k: int| 0 <= k < sl.len() ==> clean_line(#[trigger] sl[k])
    &&& forall|k: int|
        1 <= k < sl.len() ==> !starts_with(#[trigger] sl[k], "## "@) && !raw_line(sl[k]) && trim(sl[k]) != "---"@
}

pub open spec fn fresh_lines(date: Seq<char>, display_date: Seq<char>, gl: Seq<Seq<char>>, sl: Seq<Seq<char>>) -> Seq<
    Seq<char>,
> {
    note_head(date, display_date) + gl + seq![Seq::<char>::empty()] + sl + note_foot(date)
}

proof fn lemma_head_lines(date: Seq<char>, display_date: Seq<char>, id: Seq<char>)
    requires
        clean_line(date),
        clean_line(display_date),
    ensures
        forall|k: int|
            0 <= k < 9 ==> clean_line(#[trigger] note_head(date, display_date)[k]) && !is_glance_of(
                note_head(date, display_date)[k],
                id,
            ) && !spec_is_day_item_heading(note_head(date, display_date)[k], id) && !raw_line(
                note_head(date, display_date)[k],
            ),
        forall|k: int|
            0 <= k < 3 ==> clean_line(#[trigger] note_foot(date)[k]) && !is_glance_of(note_foot(date)[k], id)
                && !spec_is_day_item_heading(note_foot(date)[k], id),
        raw_line(note_foot(date)[2]),
        !is_blank(note_foot(date)[2]),
        !raw_line(note_foot(date)[0]),
        !raw_line(note_foot(date)[1]),
        starts_with(trim(note_foot(date)[2]), "Raw:"@),
{
    reveal_strlit("---");
    reveal_strlit("date: ");
    reveal_strlit("type: daily");
    reveal_strlit("# ");
    reveal_strlit("## At a glance");
    let e: Seq<char> = Seq::empty();
    let hd = note_head(date, display_date);
    let ft = note_foot(date);
    let dl = "date: "@ + date;
    let tl = "# "@ + display_date;
    lemma_plain_line(dl, id);
    lemma_plain_line("type: daily"@, id);
    lemma_clean_concat("date: "@, date);
    lemma_clean_concat("# "@, display_date);
    lemma_scaffold_owned_by_none(id, date, display_date);
    lemma_not_raw("---"@);
    lemma_not_raw(tl);
    lemma_not_raw("## At a glance"@);
    lemma_short_not_raw(e);
    lemma_raw_of(date);
    assert(hd[1] == dl && hd[5] == tl && hd[0] == "---"@ && hd[2] == "type: daily"@ && hd[3] == "---"@
        && hd[4] == e && hd[6] == e && hd[7] == "## At a glance"@ && hd[8] == e);
    assert(ft[0] == "---"@ && ft[1] == e && ft[2] == "Raw: [[raw/"@ + date + "]]"@);
}

/// What a splice keeps of a fresh note: its head, the blank line under the
/// glance lines, and its footer.
proof fn lemma_fresh_kept(date: Seq<char>, display_date: Seq<char>, id: Seq<char>, gl: Seq<Seq<char>>, sl: Seq<Seq<char>>)
    requires
        fresh_parts(date, display_date, id, gl, sl),
    ensures
        splice_kept(fresh_lines(date, display_date, gl, sl), id, 0, false) == note_head(date, display_date)
            + seq![Seq::<char>::empty()] + note_foot(date),
{
    let e: Seq<char> = Seq::empty();
    let hd = note_head(date, display_date);
    let ft = note_foot(date);
    let big = fresh_lines(date, display_date, gl, sl);
    lemma_head_lines(date, display_date, id);
    let g = gl.len() as int;
    let q = sl.len() as int;
    assert forall|k: int| 0 <= k < 9 implies !is_glance_of(#[trigger] big[k], id) && !spec_is_day_item_heading(big[k], id) by {
        assert(big[k] == hd[k]);
    }
    lemma_kept_plain(big, id, 0, 9);
    assert(big.subrange(0, 9) =~= hd);
    assert forall|k: int| 9 <= k < 9 + g implies is_glance_of(#[trigger] big[k], id) by {
        assert(big[k] == gl[k - 9]);
    }
    lemma_kept_glances(big, id, 9, 9 + g);
    assert(big[9 + g] == e);
    lemma_scaffold_owned_by_none(id, date, display_date);
    lemma_kept_plain(big, id, 9 + g, 10 + g);
    assert(big.subrange(9 + g, 10 + g) =~= seq![e]);
    let j = 10 + g + q;
    assert(big[10 + g] == sl[0]);
    assert(big[j] == ft[0] && big[j + 1] == ft[1] && big[j + 2] == ft[2]);
    reveal_strlit("---");
    assert(is_blank(e));
    assert(skip_blank(big, j + 2) == j + 2);
    assert(skip_blank(big, j + 1) == j + 2);
    assert(trim("---"@) == "---"@) by {
        lemma_solid_line("---"@);
        assert(trim_end("---"@) == "---"@);
    }
    assert(ends_section(big, j));
    assert forall|m: int| 10 + g < m < j implies !ends_section(big, m) by {
        assert(big[m] == sl[m - 10 - g]);
    }
    lemma_kept_section(big, id, 10 + g, j);
    assert forall|k: int| j <= k < j + 3 implies !is_glance_of(#[trigger] big[k], id) && !spec_is_day_item_heading(big[k], id) by {
        assert(big[k] == ft[k - j]);
    }
    lemma_kept_plain(big, id, j, j + 3);
    assert(big.subrange(j, j + 3) =~= ft);
    assert(splice_kept(big, id, j + 3, false) == Seq::<Seq<char>>::empty());
    assert(splice_kept(big, id, 0, false) =~= hd + seq![e] + ft);
}

/// Splicing a capture back into the fresh note made for it gives back the
/// note's lines.
proof fn lemma_fresh_resplice(date: Seq<char>, display_date: Seq<char>, id: Seq<char>, gl: Seq<Seq<char>>, sl: Seq<Seq<char>>)
    requires
        fresh_parts(date, display_date, id, gl, sl),
    ensures
        splice_lines(lines_nl(fresh_lines(date, display_date, gl, sl)), id, lines_nl(gl), lines_nl(sl), date, display_date)
            == fresh_lines(date, display_date, gl, sl),
{
    reveal_strlit("---");
    reveal_strlit("# ");
    reveal_strlit("## At a glance");
    let e: Seq<char> = Seq::empty();
    let hd = note_head(date, display_date);
    let ft = note_foot(date);
    let big = fresh_lines(date, display_date, gl, sl);
    let g = gl.len() as int;
    let q = sl.len() as int;
    lemma_head_lines(date, display_date, id);
    assert forall|k: int| 0 <= k < big.len() implies clean_line(#[trigger] big[k]) by {
        if k < 9 {
            assert(big[k] == hd[k]);
        } else if k < 9 + g {
            assert(big[k] == gl[k - 9]);
        } else if k == 9 + g {
            assert(big[k] == e);
        } else if k < 10 + g + q {
            assert(big[k] == sl[k - 10 - g]);
        } else {
            assert(big[k] == ft[k - 10 - g - q]);
        }
    }
    lemma_lines_nl_roundtrip(big);
    lemma_lines_nl_roundtrip(gl);
    lemma_lines_nl_roundtrip(sl);
    lemma_nonempty_all(gl);
    lemma_fresh_kept(date, display_date, id, gl, sl);
    let kept = hd + seq![e] + ft;
    assert(kept.last() == ft[2]);
    let ks0 = drop_trailing_blank(kept);
    assert(ks0 == kept);
    // the title
    let tl = "# "@ + display_date;
    assert(kept[5] == tl);
    assert(tl.take(2) =~= "# "@);
    lemma_not_starts("---"@, "# "@);
    reveal_strlit("date: ");
    reveal_strlit("type: daily");
    lemma_not_starts("date: "@ + date, "# "@);
    lemma_not_starts("type: daily"@, "# "@);
    assert forall|m: int| 0 <= m < 5 implies !line_test(#[trigger] kept[m], 0, "# "@) by {
        assert(kept[m] == hd[m]);
    }
    lemma_first_line_at(kept, 0, 5, 0, "# "@);
    let ks1 = with_title(ks0, display_date);
    assert(ks1 == kept);
    // the glance heading
    let dl = "date: "@ + date;
    reveal_strlit("date: ");
    reveal_strlit("type: daily");
    lemma_trim_head(dl);
    lemma_trim_head("type: daily"@);
    lemma_trim_head(tl);
    lemma_trim_head("---"@);
    assert(trim("## At a glance"@) == "## At a glance"@) by {
        lemma_solid_line("## At a glance"@);
        assert(trim_end("## At a glance"@) == "## At a glance"@);
    }
    assert forall|m: int| 0 <= m < 7 implies !line_test(#[trigger] kept[m], 1, "## At a glance"@) by {
        assert(kept[m] == hd[m]);
        if m == 1 {
            let k1 = trim(dl).len() as int;
            assert(trim(dl) == dl.take(k1));
            assert(dl.take(k1)[0] == dl[0]);
            assert(dl[0] == 'd');
        } else if m == 2 {
            assert(trim("type: daily"@)[0] == 't');
        } else if m == 5 {
            if trim(tl).len() >= 2 {
                let k2 = trim(tl).len() as int;
                assert(trim(tl) == tl.take(k2));
                assert(tl.take(k2)[1] == tl[1]);
                assert(tl[1] == ' ');
            }
        } else if m == 0 || m == 3 {
            assert(trim("---"@)[0] == '-');
        } else {
            assert(kept[m] == e);
            assert(trim(e).len() == 0);
        }
    }
    assert(kept[7] == "## At a glance"@);
    lemma_first_line_at(kept, 0, 7, 1, "## At a glance"@);
    let (ks2, gi) = with_glance(ks1);
    assert(ks2 == kept && gi == 7);
    assert(kept[8] == e && is_blank(e));
    assert(glance_slot(ks2, 7) == 9);
    // the glance lines
    let ks3 = ks2.take(9) + nonempty_lines(lines(lines_nl(gl))) + ks2.skip(9);
    assert(ks3 =~= hd + gl + seq![e] + ft);
    let r3 = 12 + g;
    assert(ks3[r3] == ft[2] && ks3[r3 - 1] == e && ks3[r3 - 2] == ft[0]);
    assert forall|m: int| 0 <= m < r3 implies !line_test(#[trigger] ks3[m], 2, "Raw: [[raw/"@) by {
        if m < 9 {
            assert(ks3[m] == hd[m]);
        } else if m < 9 + g {
            assert(ks3[m] == gl[m - 9]);
        } else if m == 9 + g {
            assert(ks3[m] == e);
        } else {
            assert(ks3[m] == ft[m - 10 - g]);
        }
    }
    lemma_first_line_at(ks3, 0, r3, 2, "Raw: [[raw/"@);
    assert(!is_blank("---"@)) by {
        lemma_solid_line("---"@);
    }
    assert(blank_tail(ks3, r3 - 1) == r3 - 1);
    assert(blank_tail(ks3, r3) == r3 - 1);
    assert(trim(ks3[r3 - 2]) == "---"@) by {
        lemma_solid_line("---"@);
        assert(trim_end("---"@) == "---"@);
    }
    assert(footer_index(ks3) == r3 - 2);
    let rm = ks3.remove(9 + g);
    assert(rm =~= hd + gl + ft);
    assert(rm[8 + g] == gl[g - 1]);
    lemma_owned_lines_not_blank(id, gl[g - 1]);
    assert(drop_blank_before(rm, 9 + g) == (rm, 9 + g));
    assert(drop_blank_before(ks3, r3 - 2) == (rm, 9 + g));
    let ks5 = rm.take(9 + g) + (seq![e] + lines(lines_nl(sl))) + rm.skip(9 + g);
    assert(ks5 =~= big);
    lemma_first_line_some(big, 0, r3 + q, 2, "Raw: [[raw/"@);
}

/// Filing the same capture again changes nothing: after a capture is filed
/// into a day note that did not exist yet, filing it once more with the
/// same arguments gives back the very same note. Stated for captures that
/// `refile_fit` admits.
pub proof fn law_filing_twice_changes_nothing(
    existing: Seq<char>,
    date: Seq<char>,
    id: Seq<char>,
    time: Seq<char>,
    title: Seq<char>,
    bullets: Seq<Seq<char>>,
    body: Seq<char>,
    date_fmt: Seq<char>,
    time_fmt: Seq<char>,
)
    requires
        trim(existing).len() == 0,
        refile_fit(date, id, time, title, bullets, body, date_fmt, time_fmt),
    ensures
        ({
            let n = spec_upsert_day_item(existing, date, id, time, title, bullets, body, date_fmt, time_fmt);
            spec_upsert_day_item(n, date, id, time, title, bullets, body, date_fmt, time_fmt) == n
        }),
{
    reveal_strlit("\n");
    reveal_strlit("---");
    let e: Seq<char> = Seq::empty();
    let t = day_title(title);
    let dt = spec_format_time(time, time_fmt);
    let dd = spec_format_date(date, date_fmt);
    let gl = day_glance_lines(bullets, id, t);
    let sl = day_section_lines(dt, id, t, body);
    lemma_day_glance(bullets, id, t);
    lemma_day_section(dt, id, t, body);
    lemma_note_text(date, dd, gl, sl);
    let glance = day_glance(bullets, id, t);
    let section = day_section(dt, id, t, body);
    let big = fresh_lines(date, dd, gl, sl);
    let n = lines_nl(big);
    assert(spec_upsert_day_item(existing, date, id, time, title, bullets, body, date_fmt, time_fmt) == n);
    // the section's lines past its heading cannot end it
    let b = trim(body);
    let bl = lines(b);
    assert(sl[0] == day_heading(dt, id, t));
    assert forall|k: int|
        1 <= k < sl.len() implies !starts_with(#[trigger] sl[k], "## "@) && !raw_line(sl[k]) && trim(sl[k]) != "---"@ by {
        if b.len() > 0 && 2 <= k < 2 + bl.len() {
            assert(sl[k] == bl[k - 2]);
        } else {
            assert(sl[k] == e);
            lemma_not_starts_empty();
            assert(trim(e).len() == 0);
        }
    }
    assert(fresh_parts(date, dd, id, gl, sl));
    lemma_fresh_resplice(date, dd, id, gl, sl);
    // the note is not blank
    assert(n.len() > 0 && n[0] == '-') by {
        let z: Seq<Seq<char>> = Seq::empty();
        lemma_lines_nl_add(seq!["---"@], big.skip(1));
        assert(seq!["---"@] + big.skip(1) =~= big);
        assert(seq!["---"@].drop_last() =~= z);
        assert(lines_nl(z) == e);
        assert(lines_nl(seq!["---"@]) =~= "---"@ + seq!['\n']);
    }
    lemma_solid_line(n);
    assert(trim(n).len() != 0);
    assert(spec_upsert_day_item(n, date, id, time, title, bullets, body, date_fmt, time_fmt)
        == spec_splice_day_item(n, id, glance, section, date, dd));
    assert(splice_lines(n, id, glance, section, date, dd) == big);
    // written out, the lines are the note again
    let ft = note_foot(date);
    let rl = "Raw: [[raw/"@ + date + "]]"@;
    assert(big.last() == rl);
    lemma_join_nl(big);
    assert(big =~= big.drop_last().push(rl));
    assert(lines_nl(big) == lines_nl(big.drop_last()) + rl + seq!['\n']);
    let jn = join(big, "\n"@);
    let front = lines_nl(big.drop_last()) + rl;
    assert(jn + "\n"@ == front + seq!['\n']);
    assert(jn.len() == front.len());
    assert(jn =~= (jn + "\n"@).take(jn.len() as int));
    assert(front =~= (front + seq!['\n']).take(jn.len() as int));
    assert(jn == front);
    assert(join(big, "\n"@).last() == ']') by {
        reveal_strlit("]]");
    }
    assert(!ends_with(join(big, "\n"@), "\n"@)) by {
        let s = join(big, "\n"@);
        if ends_with(s, "\n"@) {
            assert(s.skip(s.len() - 1)[0] == s.last());
        }
    }
}

proof fn lemma_not_starts_empty()
    ensures
        !starts_with(Seq::<char>::empty(), "## "@),
        !raw_line(Seq::<char>::empty()),
{
    reveal_strlit("## ");
    lemma_short_not_raw(Seq::<char>::empty());
}


// ------------------------------------------------------------------ the spliced page as text

/// Every line is clean: no line break, no carriage return.
pub open spec fn all_clean(ls: Seq<Seq<char>>) -> bool {
    forall|k: int| 0 <= k < ls.len() ==> clean_line(#[trigger] ls[k])
}

proof fn lemma_clean_insert(a: Seq<Seq<char>>, k: int, x: Seq<Seq<char>>)
    requires
        all_clean(a),
        all_clean(x),
        0 <= k <= a.len(),
    ensures
        all_clean(a.take(k) + x + a.skip(k)),
{
    let u = a.take(k) + x + a.skip(k);
    assert forall|i: int| 0 <= i < u.len() implies clean_line(#[trigger] u[i]) by {
        if i < k {
            assert(u[i] == a[i]);
        } else if i < k + x.len() {
            assert(u[i] == x[i - k]);
        } else {
            assert(u[i] == a[i - x.len()]);
        }
    }
}

proof fn lemma_clean_drop_trailing_blank(a: Seq<Seq<char>>)
    requires
        all_clean(a),
    ensures
        all_clean(drop_trailing_blank(a)),
    decreases a.len(),
{
    if a.len() > 0 && is_blank(a.last()) {
        assert forall|i: int| 0 <= i < a.drop_last().len() implies clean_line(#[trigger] a.drop_last()[i]) by {
            assert(a.drop_last()[i] == a[i]);
        }
        lemma_clean_drop_trailing_blank(a.drop_last());
    }
}

proof fn lemma_clean_drop_blank_before(a: Seq<Seq<char>>, f: int)
    requires
        all_clean(a),
    ensures
        all_clean(drop_blank_before(a, f).0),
    decreases f,
{
    if f > 0 && f <= a.len() && is_blank(a[f - 1]) {
        let r = a.remove(f - 1);
        assert forall|i: int| 0 <= i < r.len() implies clean_line(#[trigger] r[i]) by {
            if i < f - 1 {
                assert(r[i] == a[i]);
            } else {
                assert(r[i] == a[i + 1]);
            }
        }
        lemma_clean_drop_blank_before(r, f - 1);
    }
}

proof fn lemma_clean_kept(ls: Seq<Seq<char>>, id: Seq<char>, i: int, skipping: bool)
    requires
        all_clean(ls),
    ensures
        all_clean(splice_kept(ls, id, i, skipping)),
    decreases ls.len() - i,
{
    if i < 0 || i >= ls.len() {
    } else if skipping && !ends_section(ls, i) {
        lemma_clean_kept(ls, id, i + 1, true);
    } else if is_glance_of(ls[i], id) {
        lemma_clean_kept(ls, id, i + 1, false);
    } else if spec_is_day_item_heading(ls[i], id) {
        lemma_clean_kept(ls, id, i + 1, true);
    } else {
        lemma_clean_kept(ls, id, i + 1, false);
        let r = splice_kept(ls, id, i + 1, false);
        assert forall|m: int| 0 <= m < (seq![ls[i]] + r).len() implies clean_line(#[trigger] (seq![ls[i]] + r)[m]) by {
            if m > 0 {
                assert((seq![ls[i]] + r)[m] == r[m - 1]);
            }
        }
    }
}

proof fn lemma_clean_nonempty(ls: Seq<Seq<char>>)
    requires
        all_clean(ls),
    ensures
        all_clean(nonempty_lines(ls)),
    decreases ls.len(),
{
    if ls.len() > 0 {
        assert forall|i: int| 0 <= i < ls.drop_last().len() implies clean_line(#[trigger] ls.drop_last()[i]) by {
            assert(ls.drop_last()[i] == ls[i]);
        }
        lemma_clean_nonempty(ls.drop_last());
        let n0 = nonempty_lines(ls.drop_last());
        assert(clean_line(ls[ls.len() - 1]));
        assert forall|i: int| 0 <= i < n0.push(ls.last()).len() implies clean_line(#[trigger] n0.push(ls.last())[i]) by {
            if i < n0.len() {
                assert(n0.push(ls.last())[i] == n0[i]);
            }
        }
    }
}

/// Text without carriage returns, and single-line dates, splice into clean
/// lines, at least two of them.
proof fn lemma_splice_clean(
    existing: Seq<char>,
    id: Seq<char>,
    glance_lines: Seq<char>,
    section: Seq<char>,
    iso_date: Seq<char>,
    display_date: Seq<char>,
)
    requires
        no_cr(existing),
        no_cr(glance_lines),
        no_cr(section),
        clean_line(iso_date),
        clean_line(display_date),
    ensures
        all_clean(splice_lines(existing, id, glance_lines, section, iso_date, display_date)),
        splice_lines(existing, id, glance_lines, section, iso_date, display_date).len() >= 2,
{
    reveal_strlit("# ");
    reveal_strlit("## At a glance");
    reveal_strlit("---");
    let e: Seq<char> = Seq::empty();
    lemma_lines_clean(existing);
    lemma_lines_clean(glance_lines);
    lemma_lines_clean(section);
    lemma_raw_of(iso_date);
    lemma_clean_concat("# "@, display_date);
    let kept = splice_kept(lines(existing), id, 0, false);
    lemma_clean_kept(lines(existing), id, 0, false);
    let ks0 = drop_trailing_blank(kept);
    lemma_clean_drop_trailing_blank(kept);
    let ks1 = with_title(ks0, display_date);
    let title = seq!["# "@ + display_date, e];
    assert(all_clean(title));
    if first_line(ks0, 0, 0, "# "@) is None {
        let at = title_slot(ks0);
        if ks0.len() > 0 && trim(ks0[0]) == "---"@ {
            lemma_first_line_bounds(ks0, 1, 1, "---"@);
        }
        lemma_clean_insert(ks0, at, title);
    }
    let (ks2, g) = with_glance(ks1);
    let gh = seq!["## At a glance"@, e];
    assert(all_clean(gh));
    assert(all_clean(seq!["## At a glance"@]));
    lemma_first_line_bounds(ks1, 0, 1, "## At a glance"@);
    match first_line(ks1, 0, 1, "## At a glance"@) {
        Some(_) => {},
        None => match first_line(ks1, 0, 0, "# "@) {
            Some(t) => {
                lemma_first_line_bounds(ks1, 0, 0, "# "@);
                lemma_skip_blank_bounds(ks1, t + 1);
                lemma_clean_insert(ks1, skip_blank(ks1, t + 1), gh);
            },
            None => {
                lemma_clean_insert(ks1, ks1.len() as int, seq!["## At a glance"@]);
                assert(ks1.take(ks1.len() as int) + seq!["## At a glance"@] + ks1.skip(ks1.len() as int)
                    =~= ks1.push("## At a glance"@));
            },
        },
    }
    assert(0 <= g < ks2.len());
    let a = glance_slot(ks2, g);
    let ng = nonempty_lines(lines(glance_lines));
    lemma_clean_nonempty(lines(glance_lines));
    let ks3 = ks2.take(a) + ng + ks2.skip(a);
    lemma_clean_insert(ks2, a, ng);
    let fi = footer_index(ks3);
    lemma_footer_index_bounds(ks3);
    let (ks4, f) = drop_blank_before(ks3, fi);
    lemma_clean_drop_blank_before(ks3, fi);
    lemma_drop_blank_before_bounds(ks3, fi);
    let sec = seq![e] + lines(section);
    assert forall|i: int| 0 <= i < sec.len() implies clean_line(#[trigger] sec[i]) by {
        if i > 0 {
            assert(sec[i] == lines(section)[i - 1]);
        }
    }
    let ks5 = ks4.take(f) + sec + ks4.skip(f);
    lemma_clean_insert(ks4, f, sec);
    if first_line(ks5, 0, 2, "Raw: [[raw/"@) is None {
        let foot = raw_footer(ks5, iso_date);
        lemma_raw_footer_parts(ks5, iso_date);
        lemma_clean_concat("---"@, e);
        assert forall|k: int| 0 <= k < foot.len() implies clean_line(#[trigger] foot[k]) by {
            if k < foot.len() - 1 {
                assert(foot[k] == e || foot[k] == "---"@);
            }
        }
        lemma_clean_insert(ks5, ks5.len() as int, foot);
        assert(ks5.take(ks5.len() as int) + foot + ks5.skip(ks5.len() as int) =~= ks5 + foot);
    } else {
        lemma_first_line_bounds(ks5, 0, 2, "Raw: [[raw/"@);
        lemma_first_line_hit(ks5, 0, 2, "Raw: [[raw/"@);
        assert(ks5[f] == e);
        lemma_short_not_raw(e);
    }
}

/// Clean lines written out, each ended, read back as themselves, except a
/// final empty line, which reads back as nothing.
pub proof fn lemma_written_lines(ls: Seq<Seq<char>>)
    requires
        all_clean(ls),
        ls.len() >= 2,
    ensures
        lines(with_final_newline(join(ls, "\n"@))) == if ls.last().len() == 0 {
            ls.drop_last()
        } else {
            ls
        },
{
    reveal_strlit("\n");
    let dl = ls.drop_last();
    assert forall|k: int| 0 <= k < dl.len() implies clean_line(#[trigger] dl[k]) by {
        assert(dl[k] == ls[k]);
    }
    lemma_join_nl(ls);
    lemma_lines_nl_roundtrip(ls);
    lemma_lines_nl_roundtrip(dl);
    let jn = join(ls, "\n"@);
    assert(ls =~= dl.push(ls.last()));
    assert(lines_nl(ls) == lines_nl(dl) + ls.last() + seq!['\n']);
    let front = lines_nl(dl) + ls.last();
    assert(jn.len() == front.len());
    assert(jn =~= (jn + "\n"@).take(jn.len() as int));
    assert(front =~= (front + seq!['\n']).take(jn.len() as int));
    assert(jn == front);
    if ls.last().len() == 0 {
        assert(front =~= lines_nl(dl));
        lemma_join_nl(dl);
        assert(lines_nl(dl).len() > 0 && lines_nl(dl).last() == '\n') by {
            assert(dl =~= dl.drop_last().push(dl.last()));
        }
        assert(ends_with(jn, "\n"@)) by {
            assert(jn.skip(jn.len() - 1) =~= "\n"@);
        }
    } else {
        assert(clean_line(ls[ls.len() - 1]));
        assert(jn.last() == ls.last().last());
        assert(jn.last() != '\n');
        assert(!ends_with(jn, "\n"@)) by {
            if ends_with(jn, "\n"@) {
                assert(jn.skip(jn.len() - 1)[0] == jn.last());
            }
        }
    }
}


/// Text the splice can read back line for line: no carriage returns, and
/// single-line dates.
pub open spec fn splice_text_ok(
    existing: Seq<char>,
    glance_lines: Seq<char>,
    section: Seq<char>,
    iso_date: Seq<char>,
    display_date: Seq<char>,
) -> bool {
    &&& no_cr(existing)
    &&& no_cr(glance_lines)
    &&& no_cr(section)
    &&& clean_line(iso_date)
    &&& clean_line(display_date)
}

/// The lines of the page `splice_day_item` returns: the spliced lines, less
/// a final empty line, which writing out does not keep.
proof fn lemma_spliced_text(
    existing: Seq<char>,
    id: Seq<char>,
    glance_lines: Seq<char>,
    section: Seq<char>,
    iso_date: Seq<char>,
    display_date: Seq<char>,
)
    requires
        splice_text_ok(existing, glance_lines, section, iso_date, display_date),
    ensures
        ({
            let l = splice_lines(existing, id, glance_lines, section, iso_date, display_date);
            let t = lines(spec_splice_day_item(existing, id, glance_lines, section, iso_date, display_date));
            &&& l.len() >= 2
            &&& t == l || (l.last().len() == 0 && t == l.drop_last())
        }),
{
    lemma_splice_clean(existing, id, glance_lines, section, iso_date, display_date);
    lemma_written_lines(splice_lines(existing, id, glance_lines, section, iso_date, display_date));
}

/// Filing a capture keeps everything else on the day note, read from the
/// page text it returns: a non-blank line of the page that is neither one
/// of this capture's glance lines nor inside its section occurs among the
/// returned page's lines at least as often as it did.
pub proof fn law_spliced_page_keeps_the_rest(
    existing: Seq<char>,
    id: Seq<char>,
    glance_lines: Seq<char>,
    section: Seq<char>,
    iso_date: Seq<char>,
    display_date: Seq<char>,
    line: Seq<char>,
)
    requires
        splice_text_ok(existing, glance_lines, section, iso_date, display_date),
        !is_blank(line),
    ensures
        count_lines(
            lines(spec_splice_day_item(existing, id, glance_lines, section, iso_date, display_date)),
            |l: Seq<char>| l == line,
        ) >= count_lines(splice_kept(lines(existing), id, 0, false), |l: Seq<char>| l == line),
{
    lemma_spliced_text(existing, id, glance_lines, section, iso_date, display_date);
    law_splice_keeps_the_rest(existing, id, glance_lines, section, iso_date, display_date, line);
    let l = splice_lines(existing, id, glance_lines, section, iso_date, display_date);
    if l.last().len() == 0 {
        assert(is_blank(l.last())) by {
            assert(trim(l.last()).len() == 0);
        }
    }
}

/// Refiling a capture never duplicates it, read from the page text it
/// returns: the page holds exactly as many glance lines of the capture as
/// the new glance text brings, and as many section headings of it as the
/// new section has.
pub proof fn law_spliced_page_replaces_the_capture(
    existing: Seq<char>,
    id: Seq<char>,
    glance_lines: Seq<char>,
    section: Seq<char>,
    iso_date: Seq<char>,
    display_date: Seq<char>,
)
    requires
        splice_text_ok(existing, glance_lines, section, iso_date, display_date),
    ensures
        ({
            let t = lines(spec_splice_day_item(existing, id, glance_lines, section, iso_date, display_date));
            &&& count_lines(t, glance_line_of(id)) == count_lines(
                nonempty_lines(lines(glance_lines)),
                glance_line_of(id),
            ) + count_lines(lines(section), glance_line_of(id))
            &&& count_lines(t, heading_line_of(id)) == count_lines(
                nonempty_lines(lines(glance_lines)),
                heading_line_of(id),
            ) + count_lines(lines(section), heading_line_of(id))
        }),
{
    lemma_spliced_text(existing, id, glance_lines, section, iso_date, display_date);
    law_splice_replaces_the_capture(existing, id, glance_lines, section, iso_date, display_date);
    let l = splice_lines(existing, id, glance_lines, section, iso_date, display_date);
    lemma_owned_lines_not_blank(id, l.last());
    assert(l.last().len() == 0 ==> is_blank(l.last())) by {
        if l.last().len() == 0 {
            assert(trim(l.last()).len() == 0);
        }
    }
}

/// Filing a capture leaves one copy of it, read from the page text it
/// returns: with a well-formed glance text and section (as for
/// `law_splice_leaves_one_copy`), the page's glance lines of the capture
/// are the new ones in their order, and it has one section heading of it.
pub proof fn law_spliced_page_leaves_one_copy(
    existing: Seq<char>,
    id: Seq<char>,
    glance_lines: Seq<char>,
    section: Seq<char>,
    iso_date: Seq<char>,
    display_date: Seq<char>,
)
    requires
        splice_text_ok(existing, glance_lines, section, iso_date, display_date),
        forall|i: int|
            0 <= i < nonempty_lines(lines(glance_lines)).len() ==> is_glance_of(
                #[trigger] nonempty_lines(lines(glance_lines))[i],
                id,
            ),
        lines(section).len() > 0,
        spec_is_day_item_heading(lines(section)[0], id),
        forall|i: int| 1 <= i < lines(section).len() ==> !spec_is_day_item_heading(#[trigger] lines(section)[i], id),
        forall|i: int| 0 <= i < lines(section).len() ==> !is_glance_of(#[trigger] lines(section)[i], id),
    ensures
        ({
            let t = lines(spec_splice_day_item(existing, id, glance_lines, section, iso_date, display_date));
            &&& t.filter(glance_line_of(id)) == nonempty_lines(lines(glance_lines))
            &&& count_lines(t, heading_line_of(id)) == 1
        }),
{
    lemma_spliced_text(existing, id, glance_lines, section, iso_date, display_date);
    law_splice_leaves_one_copy(existing, id, glance_lines, section, iso_date, display_date);
    let l = splice_lines(existing, id, glance_lines, section, iso_date, display_date);
    if l.last().len() == 0 {
        assert(is_blank(l.last())) by {
            assert(trim(l.last()).len() == 0);
        }
        lemma_owned_lines_not_blank(id, l.last());
        reveal(Seq::filter);
        assert(l.filter(glance_line_of(id)) == l.drop_last().filter(glance_line_of(id)));
    }
}

/// Filing a capture keeps everything else in its place, read from the page
/// text it returns: the non-blank lines the splice keeps come back among
/// the returned page's lines in the same order.
pub proof fn law_spliced_page_keeps_the_order(
    existing: Seq<char>,
    id: Seq<char>,
    glance_lines: Seq<char>,
    section: Seq<char>,
    iso_date: Seq<char>,
    display_date: Seq<char>,
)
    requires
        splice_text_ok(existing, glance_lines, section, iso_date, display_date),
    ensures
        is_subseq(
            solid_lines(splice_kept(lines(existing), id, 0, false)),
            lines(spec_splice_day_item(existing, id, glance_lines, section, iso_date, display_date)),
        ),
{
    lemma_spliced_text(existing, id, glance_lines, section, iso_date, display_date);
    law_splice_keeps_the_order(existing, id, glance_lines, section, iso_date, display_date);
    let l = splice_lines(existing, id, glance_lines, section, iso_date, display_date);
    let k = solid_lines(splice_kept(lines(existing), id, 0, false));
    lemma_solid_subseq(splice_kept(lines(existing), id, 0, false));
    if l.last().len() == 0 {
        assert(is_blank(l[l.len() - 1])) by {
            assert(trim(l.last()).len() == 0);
        }
        lemma_subseq_remove_blank(k, l, l.len() - 1);
        assert(l.remove(l.len() - 1) =~= l.drop_last());
    }
}

/// Filing a capture keeps the footer single and last, read from the page
/// text it returns (on the terms of `law_splice_keeps_one_footer_last`).
pub proof fn law_spliced_page_keeps_one_footer_last(
    existing: Seq<char>,
    id: Seq<char>,
    glance_lines: Seq<char>,
    section: Seq<char>,
    iso_date: Seq<char>,
    display_date: Seq<char>,
)
    requires
        splice_text_ok(existing, glance_lines, section, iso_date, display_date),
        footer_trails(lines(existing)),
        forall|i: int|
            0 <= i < nonempty_lines(lines(glance_lines)).len() ==> !raw_line(
                #[trigger] nonempty_lines(lines(glance_lines))[i],
            ),
        forall|i: int| 0 <= i < lines(section).len() ==> !raw_line(#[trigger] lines(section)[i]),
    ensures
        ({
            let r = lines(spec_splice_day_item(existing, id, glance_lines, section, iso_date, display_date));
            &&& footer_trails(r)
            &&& exists|j: int| 0 <= j < r.len() && raw_line(#[trigger] r[j])
            &&& forall|i: int, k: int|
                #![trigger r[i], r[k]]
                0 <= i < r.len() && 0 <= k < r.len() && raw_line(r[i]) && raw_line(r[k]) ==> i == k
        }),
{
    lemma_spliced_text(existing, id, glance_lines, section, iso_date, display_date);
    law_splice_keeps_one_footer_last(existing, id, glance_lines, section, iso_date, display_date);
    let l = splice_lines(existing, id, glance_lines, section, iso_date, display_date);
    let r = lines(spec_splice_day_item(existing, id, glance_lines, section, iso_date, display_date));
    if l.last().len() == 0 {
        lemma_trails_remove(l, l.len() - 1);
        assert(l.remove(l.len() - 1) =~= l.drop_last());
        let j = choose|j: int| 0 <= j < l.len() && raw_line(#[trigger] l[j]);
        lemma_raw_line_solid(l[j]);
        assert(is_blank(l[l.len() - 1])) by {
            assert(trim(l.last()).len() == 0);
        }
        assert(j < l.len() - 1);
        assert(r[j] == l[j]);
        assert forall|i: int, k: int|
            0 <= i < r.len() && 0 <= k < r.len() && raw_line(#[trigger] r[i]) && raw_line(#[trigger] r[k]) implies i == k by {
            assert(r[i] == l[i] && r[k] == l[k]);
        }
    }
}

} // verus!
