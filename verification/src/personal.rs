//! `personal.md`: every personal-scoped entry over time, newest date first,
//! each under `### {time} · \`{id}\` · {title} · {destination}`.
use crate::datetime::{
    date_error, format_date, format_time, parse_date_to_iso, spec_format_date, spec_format_time,
    spec_parse_date_to_iso, valid_date,
};
use crate::calendar::{naive_date_parse, pat_iso};
use crate::entity::{heading_date, ov};
use crate::order::{text_order, text_order_exec};
use crate::overview::{extract_overview_body, spec_extract_overview_body};
use crate::text::{
    chars_of, contains, contains_exec, copy, eq, find_str, is_blank, is_blank_exec, lines, lines_of,
    push_all, push_str, slice_of, split_once, split_once_str, starts_with, starts_with_str, take_chars,
    take_chars_exec, to_string, trim, trim_end, trim_end_exec, trim_exec, vv,
};
use vstd::prelude::*;

verus! {

/// One entry: capture id, display time, title, destination, body.
pub type PItem = (Seq<char>, Seq<char>, Seq<char>, Seq<char>, Seq<char>);

/// A date and its entries.
pub type PGroup = (Seq<char>, Seq<PItem>);

pub type PScan = (Seq<PGroup>, Option<Seq<char>>, Seq<PItem>, Option<PItem>);

pub type ExecPItem = (Vec<char>, Vec<char>, Vec<char>, Vec<char>, Vec<char>);

pub type ExecPGroup = (Vec<char>, Vec<ExecPItem>);

pub open spec fn piv(p: ExecPItem) -> PItem {
    (p.0@, p.1@, p.2@, p.3@, p.4@)
}

pub open spec fn pisv(v: Seq<ExecPItem>) -> Seq<PItem> {
    v.map_values(|p: ExecPItem| piv(p))
}

pub open spec fn pgv(v: Seq<ExecPGroup>) -> Seq<PGroup> {
    v.map_values(|g: ExecPGroup| (g.0@, pisv(g.1@)))
}

pub open spec fn opv(o: Option<ExecPItem>) -> Option<PItem> {
    match o {
        Some(p) => Some(piv(p)),
        None => None,
    }
}

/// The fixed text a personal page opens with.
pub const PERSONAL_INTRO: &'static str = "# Personal\n\n\
     Life notes and personal-scoped entries over time. Project work that happens to be\n\
     personal-scoped also appears here as a short pointer; the full log lives on the\n\
     project page.\n\n";

/// The Overview a personal page gets before it has its own.
pub const DEFAULT_PERSONAL_OVERVIEW: &'static str = "Standing view of personal life threads. Dated log is below.";

// ------------------------------------------------------------------ specs

/// `str::splitn(n, sep)`.
pub open spec fn split_parts(s: Seq<char>, sep: Seq<char>, n: nat) -> Seq<Seq<char>>
    decreases n,
{
    if n <= 1 {
        seq![s]
    } else {
        match split_once(s, sep) {
            Some(p) => seq![p.0] + split_parts(p.1, sep, (n - 1) as nat),
            None => seq![s],
        }
    }
}

pub open spec fn trim_start_char(s: Seq<char>, c: char) -> Seq<char>
    decreases s.len(),
{
    if s.len() > 0 && s[0] == c {
        trim_start_char(s.drop_first(), c)
    } else {
        s
    }
}

pub open spec fn trim_end_char(s: Seq<char>, c: char) -> Seq<char>
    decreases s.len(),
{
    if s.len() > 0 && s.last() == c {
        trim_end_char(s.drop_last(), c)
    } else {
        s
    }
}

/// `str::trim_matches(c)`.
pub open spec fn trim_char(s: Seq<char>, c: char) -> Seq<char> {
    trim_end_char(trim_start_char(s, c), c)
}

/// The entry a `### ` heading opens, if it has at least a time and an id.
pub open spec fn entry_heading(rest: Seq<char>) -> Option<PItem> {
    let parts = split_parts(rest, " · "@, 4);
    if parts.len() >= 2 {
        Some(
            (
                trim_char(trim(parts[1]), '`'),
                trim(parts[0]),
                trim(
                    if parts.len() > 2 {
                        parts[2]
                    } else {
                        "Entry"@
                    },
                ),
                trim(
                    if parts.len() > 3 {
                        parts[3]
                    } else {
                        "note"@
                    },
                ),
                seq![],
            ),
        )
    } else {
        None
    }
}

/// Close the current entry, its body trimmed, so the blank lines around it
/// are not carried into it when the page is written again.
pub open spec fn flush_entry(cur: Option<PItem>, items: Seq<PItem>) -> Seq<PItem> {
    match cur {
        Some(it) => items.push((it.0, it.1, it.2, it.3, trim(it.4))),
        None => items,
    }
}

pub open spec fn personal_step(s: PScan, line: Seq<char>, fmt: Seq<char>) -> PScan {
    let (groups, cur_date, items, cur) = s;
    match heading_date(line, fmt) {
        Some(d) => {
            let its = flush_entry(cur, items);
            match cur_date {
                Some(prev) => (groups.push((prev, its)), Some(d), seq![], None),
                None => (groups, Some(d), its, None),
            }
        },
        None => if cur_date is None {
            s
        } else if starts_with(line, "### "@) {
            (groups, cur_date, flush_entry(cur, items), entry_heading(line.skip(4)))
        } else {
            match cur {
                Some(it) => (groups, cur_date, items, Some((it.0, it.1, it.2, it.3, it.4 + line + "\n"@))),
                None => s,
            }
        },
    }
}

pub open spec fn personal_scan(ls: Seq<Seq<char>>, fmt: Seq<char>) -> PScan
    decreases ls.len(),
{
    if ls.len() == 0 {
        (seq![], None, seq![], None)
    } else {
        personal_step(personal_scan(ls.drop_last(), fmt), ls.last(), fmt)
    }
}

/// The dated entries of `personal.md`, in page order.
pub open spec fn personal_groups(text: Seq<char>, fmt: Seq<char>) -> Seq<PGroup> {
    let s = personal_scan(lines(text), fmt);
    let its = flush_entry(s.3, s.2);
    match s.1 {
        Some(d) => s.0.push((d, its)),
        None => s.0,
    }
}

pub open spec fn render_pitem(it: PItem) -> Seq<char> {
    "### "@ + it.1 + " · `"@ + it.0 + "` · "@ + it.2 + " · "@ + it.3 + "\n\n"@ + if it.4.len() == 0 {
        seq![]
    } else {
        it.4 + "\n\n"@
    }
}

pub open spec fn render_pitems(its: Seq<PItem>) -> Seq<char>
    decreases its.len(),
{
    if its.len() == 0 {
        seq![]
    } else {
        render_pitems(its.drop_last()) + render_pitem(its.last())
    }
}

pub open spec fn render_pgroups(gs: Seq<PGroup>, fmt: Seq<char>) -> Seq<char>
    decreases gs.len(),
{
    if gs.len() == 0 {
        seq![]
    } else {
        render_pgroups(gs.drop_last(), fmt) + "## "@ + spec_format_date(gs.last().0, fmt) + "\n\n"@
            + render_pitems(gs.last().1)
    }
}

/// The whole page: the fixed intro, the Overview, and the dated entries.
pub open spec fn spec_render_personal_document(
    gs: Seq<PGroup>,
    fmt: Seq<char>,
    overview: Option<Seq<char>>,
) -> Seq<char> {
    PERSONAL_INTRO@ + "## Overview\n\n"@ + trim_end(
        match overview {
            Some(o) => o,
            None => DEFAULT_PERSONAL_OVERVIEW@,
        },
    ) + "\n\n"@ + render_pgroups(gs, fmt)
}

/// Entries of a date ordered by (time, title): `a` goes after `b` exactly
/// when this is positive.
pub open spec fn pitem_order(a: PItem, b: PItem) -> int {
    if text_order(a.1, b.1) != 0 {
        text_order(a.1, b.1)
    } else {
        text_order(a.2, b.2)
    }
}

/// Where `x` goes among entries sorted by (time, title): after every one
/// that is not later.
pub open spec fn pitem_pos(s: Seq<PItem>, x: PItem) -> int
    decreases s.len(),
{
    if s.len() == 0 || pitem_order(s[0], x) > 0 {
        0
    } else {
        1 + pitem_pos(s.drop_first(), x)
    }
}

/// Entries sorted by (time, title), ties in page order.
pub open spec fn sort_pitems(s: Seq<PItem>) -> Seq<PItem>
    decreases s.len(),
{
    if s.len() == 0 {
        seq![]
    } else {
        let t = sort_pitems(s.drop_last());
        t.insert(pitem_pos(t, s.last()), s.last())
    }
}

pub open spec fn pgroup_pos(s: Seq<PGroup>, d: Seq<char>) -> int
    decreases s.len(),
{
    if s.len() == 0 || text_order(s[0].0, d) < 0 {
        0
    } else {
        1 + pgroup_pos(s.drop_first(), d)
    }
}

/// Dates newest first, one date's groups in page order.
pub open spec fn sort_pgroups_desc(s: Seq<PGroup>) -> Seq<PGroup>
    decreases s.len(),
{
    if s.len() == 0 {
        seq![]
    } else {
        let t = sort_pgroups_desc(s.drop_last());
        t.insert(pgroup_pos(t, s.last().0), s.last())
    }
}

pub open spec fn first_pgroup(gs: Seq<PGroup>, date: Seq<char>) -> Option<int>
    decreases gs.len(),
{
    if gs.len() == 0 {
        None
    } else if gs[0].0 == date {
        Some(0)
    } else {
        match first_pgroup(gs.drop_first(), date) {
            Some(k) => Some(k + 1),
            None => None,
        }
    }
}

/// The entry a personal-scoped capture piece is filed as.
pub open spec fn new_pitem(
    item_id: Seq<char>,
    time: Seq<char>,
    title: Seq<char>,
    dest: Seq<char>,
    body: Seq<char>,
    time_fmt: Seq<char>,
) -> PItem {
    (
        item_id,
        spec_format_time(time, time_fmt),
        if is_blank(title) {
            "Entry"@
        } else {
            take_chars(trim(title), 80)
        },
        if is_blank(dest) {
            "note"@
        } else {
            trim(dest)
        },
        trim(body),
    )
}

pub open spec fn upsert_pgroup(gs: Seq<PGroup>, date: Seq<char>, it: PItem) -> Seq<PGroup> {
    match first_pgroup(gs, date) {
        Some(k) => gs.update(k, (date, sort_pitems(gs[k].1.push(it)))),
        None => gs.push((date, seq![it])),
    }
}

pub open spec fn spec_upsert_personal_item(
    existing: Seq<char>,
    date: Seq<char>,
    item_id: Seq<char>,
    time: Seq<char>,
    title: Seq<char>,
    dest: Seq<char>,
    body: Seq<char>,
    fmt: Seq<char>,
    time_fmt: Seq<char>,
) -> Seq<char> {
    let it = new_pitem(item_id, time, title, dest, body, time_fmt);
    spec_render_personal_document(
        sort_pgroups_desc(upsert_pgroup(personal_groups(existing, fmt), date, it)),
        fmt,
        spec_extract_overview_body(existing),
    )
}

pub open spec fn drop_id(items: Seq<PItem>, id: Seq<char>) -> Seq<PItem>
    decreases items.len(),
{
    if items.len() == 0 {
        seq![]
    } else {
        let rest = drop_id(items.drop_last(), id);
        if items.last().0 == id {
            rest
        } else {
            rest.push(items.last())
        }
    }
}

/// Every date's entries without capture `id`, dates left empty dropped.
pub open spec fn clear_groups(gs: Seq<PGroup>, id: Seq<char>) -> Seq<PGroup>
    decreases gs.len(),
{
    if gs.len() == 0 {
        seq![]
    } else {
        let rest = clear_groups(gs.drop_last(), id);
        let its = drop_id(gs.last().1, id);
        if its.len() == 0 {
            rest
        } else {
            rest.push((gs.last().0, its))
        }
    }
}

/// `personal.md` without capture `id`'s entries, or `None` when the page
/// does not mention the capture (and is left alone).
pub open spec fn spec_clear_personal_item(existing: Seq<char>, id: Seq<char>, fmt: Seq<char>) -> Option<
    Seq<char>,
> {
    if existing.len() == 0 || !contains(existing, "`"@ + id + "`"@) {
        None
    } else {
        Some(
            spec_render_personal_document(
                sort_pgroups_desc(clear_groups(personal_groups(existing, fmt), id)),
                fmt,
                spec_extract_overview_body(existing),
            ),
        )
    }
}

// ------------------------------------------------------------------ exec

pub fn trim_char_exec(s: &[char], c: char) -> (r: Vec<char>)
    ensures
        r@ == trim_char(s@, c),
{
    let mut lo: usize = 0;
    proof {
        assert(s@.skip(0) =~= s@);
    }
    while lo < s.len() && s[lo] == c
        invariant
            lo <= s.len(),
            trim_start_char(s@, c) == trim_start_char(s@.skip(lo as int), c),
        decreases s.len() - lo,
    {
        proof {
            assert(s@.skip(lo as int).drop_first() =~= s@.skip(lo + 1));
        }
        lo += 1;
    }
    let t = slice_of(s, lo, s.len());
    proof {
        assert(t@ =~= s@.skip(lo as int));
        if lo < s.len() {
            assert(t@[0] == s@[lo as int]);
        }
    }
    let mut hi: usize = t.len();
    proof {
        assert(t@.take(t.len() as int) =~= t@);
    }
    while hi > 0 && t[hi - 1] == c
        invariant
            hi <= t.len(),
            trim_end_char(t@, c) == trim_end_char(t@.take(hi as int), c),
        decreases hi,
    {
        proof {
            assert(t@.take(hi as int).drop_last() =~= t@.take(hi - 1));
        }
        hi -= 1;
    }
    proof {
        if hi > 0 {
            assert(t@.take(hi as int).last() == t@[hi - 1]);
        }
    }
    slice_of(&t, 0, hi)
}

fn split_parts_exec(s: &[char], n: usize) -> (r: Vec<Vec<char>>)
    ensures
        vv(r@) == split_parts(s@, " · "@, n as nat),
        r.len() <= if n == 0 { 1 } else { n as int },
    decreases n,
{
    if n <= 1 {
        let mut v: Vec<Vec<char>> = Vec::new();
        v.push(copy(s));
        proof {
            assert(vv(v@) =~= seq![s@]);
        }
        return v;
    }
    match split_once_str(s, " · ") {
        Some((a, b)) => {
            let rest = split_parts_exec(&b, n - 1);
            let mut v: Vec<Vec<char>> = Vec::new();
            v.push(a);
            let ghost av = v@;
            let mut rest = rest;
            v.append(&mut rest);
            proof {
                assert(vv(v@) =~= seq![av[0]@] + split_parts(b@, " · "@, (n - 1) as nat));
            }
            v
        },
        None => {
            let mut v: Vec<Vec<char>> = Vec::new();
            v.push(copy(s));
            proof {
                assert(vv(v@) =~= seq![s@]);
            }
            v
        },
    }
}

fn entry_heading_exec(rest: &[char]) -> (r: Option<ExecPItem>)
    ensures
        opv(r) == entry_heading(rest@),
{
    let parts = split_parts_exec(rest, 4);
    if parts.len() >= 2 {
        proof {
            assert(vv(parts@)[1] == parts@[1]@);
            assert(vv(parts@)[0] == parts@[0]@);
        }
        let id = trim_char_exec(&trim_exec(&parts[1]), '`');
        let time = trim_exec(&parts[0]);
        let title = if parts.len() > 2 {
            proof {
                assert(vv(parts@)[2] == parts@[2]@);
            }
            trim_exec(&parts[2])
        } else {
            let e = chars_of("Entry");
            trim_exec(&e)
        };
        let dest = if parts.len() > 3 {
            proof {
                assert(vv(parts@)[3] == parts@[3]@);
            }
            trim_exec(&parts[3])
        } else {
            let e = chars_of("note");
            trim_exec(&e)
        };
        Some((id, time, title, dest, Vec::new()))
    } else {
        None
    }
}

fn flush_entry_exec(cur: &mut Option<ExecPItem>, items: &mut Vec<ExecPItem>)
    ensures
        opv(*final(cur)) is None,
        pisv(final(items)@) == flush_entry(opv(*old(cur)), pisv(old(items)@)),
{
    match cur.take() {
        Some((a, b, c, d, e)) => {
            let t = trim_exec(&e);
            items.push((a, b, c, d, t));
            proof {
                assert(pisv(items@) =~= pisv(old(items)@).push((a@, b@, c@, d@, trim(e@))));
            }
        },
        None => {},
    }
}

fn pgroup_push(groups: &mut Vec<ExecPGroup>, d: Vec<char>, items: Vec<ExecPItem>)
    ensures
        pgv(final(groups)@) == pgv(old(groups)@).push((d@, pisv(items@))),
{
    groups.push((d, items));
    proof {
        assert(pgv(groups@) =~= pgv(old(groups)@).push((d@, pisv(items@))));
    }
}

fn parse_personal_by_date(existing: &str, fmt: &str) -> (r: Vec<ExecPGroup>)
    ensures
        pgv(r@) == personal_groups(existing@, fmt@),
{
    let ls = lines_of(existing);
    let ghost g = vv(ls@);
    let mut groups: Vec<ExecPGroup> = Vec::new();
    let mut cur_date: Option<Vec<char>> = None;
    let mut items: Vec<ExecPItem> = Vec::new();
    let mut cur: Option<ExecPItem> = None;
    let mut i: usize = 0;
    proof {
        assert(pgv(groups@) =~= Seq::<PGroup>::empty());
        assert(pisv(items@) =~= Seq::<PItem>::empty());
        assert(g.take(0) =~= Seq::<Seq<char>>::empty());
    }
    while i < ls.len()
        invariant
            0 <= i <= ls.len(),
            g == vv(ls@),
            g == lines(existing@),
            (pgv(groups@), ov(cur_date), pisv(items@), opv(cur)) == personal_scan(
                g.take(i as int),
                fmt@,
            ),
        decreases ls.len() - i,
    {
        proof {
            assert(g.take(i + 1).drop_last() =~= g.take(i as int));
            assert(g.take(i + 1).last() == ls@[i as int]@);
        }
        let line = &ls[i];
        match crate::entity::heading_date_exec(line, fmt) {
            Some(d) => {
                flush_entry_exec(&mut cur, &mut items);
                match cur_date.take() {
                    Some(prev) => {
                        let mut done: Vec<ExecPItem> = Vec::new();
                        std::mem::swap(&mut done, &mut items);
                        pgroup_push(&mut groups, prev, done);
                        proof {
                            assert(pisv(items@) =~= Seq::<PItem>::empty());
                        }
                    },
                    None => {},
                }
                cur_date = Some(chars_of(d.as_str()));
            },
            None => {
                if cur_date.is_some() {
                    if starts_with_str(line, "### ") {
                        proof {
                            reveal_strlit("### ");
                        }
                        flush_entry_exec(&mut cur, &mut items);
                        let rest = slice_of(line, 4, line.len());
                        cur = entry_heading_exec(&rest);
                    } else {
                        match cur.take() {
                            Some((a, b, c, d, mut e)) => {
                                let ghost e0 = e@;
                                push_all(&mut e, line);
                                e.push('\n');
                                proof {
                                    reveal_strlit("\n");
                                    assert(e@ =~= e0 + line@ + "\n"@);
                                }
                                cur = Some((a, b, c, d, e));
                            },
                            None => {},
                        }
                    }
                }
            },
        }
        i += 1;
    }
    proof {
        assert(g.take(ls.len() as int) =~= g);
    }
    flush_entry_exec(&mut cur, &mut items);
    match cur_date {
        Some(d) => {
            pgroup_push(&mut groups, d, items);
        },
        None => {},
    }
    groups
}

fn render_personal_document(groups: &Vec<ExecPGroup>, fmt: &str, overview: Option<String>) -> (r: String)
    ensures
        r@ == spec_render_personal_document(
            pgv(groups@),
            fmt@,
            match overview {
                Some(o) => Some(o@),
                None => None,
            },
        ),
{
    let mut out: Vec<char> = Vec::new();
    push_str(&mut out, PERSONAL_INTRO);
    push_str(&mut out, "## Overview\n\n");
    let o = match overview {
        Some(o) => o,
        None => DEFAULT_PERSONAL_OVERVIEW.to_string(),
    };
    let oc = chars_of(o.as_str());
    let ot = trim_end_exec(&oc);
    push_all(&mut out, &ot);
    push_str(&mut out, "\n\n");
    let ghost head = out@;
    let mut i: usize = 0;
    while i < groups.len()
        invariant
            0 <= i <= groups.len(),
            out@ == head + render_pgroups(pgv(groups@).take(i as int), fmt@),
        decreases groups.len() - i,
    {
        proof {
            assert(pgv(groups@).take(i + 1).drop_last() =~= pgv(groups@).take(i as int));
            assert(pgv(groups@).take(i + 1).last() == (groups@[i as int].0@, pisv(groups@[i as int].1@)));
        }
        let ghost before = out@;
        push_str(&mut out, "## ");
        let ds = to_string(&groups[i].0);
        let d = format_date(ds.as_str(), fmt);
        push_str(&mut out, d.as_str());
        push_str(&mut out, "\n\n");
        let its = &groups[i].1;
        let ghost mid = out@;
        let mut j: usize = 0;
        while j < its.len()
            invariant
                0 <= j <= its.len(),
                out@ == mid + render_pitems(pisv(its@).take(j as int)),
            decreases its.len() - j,
        {
            proof {
                assert(pisv(its@).take(j + 1).drop_last() =~= pisv(its@).take(j as int));
                assert(pisv(its@).take(j + 1).last() == piv(its@[j as int]));
            }
            let ghost b2 = out@;
            let it = &its[j];
            push_str(&mut out, "### ");
            push_all(&mut out, &it.1);
            push_str(&mut out, " · `");
            push_all(&mut out, &it.0);
            push_str(&mut out, "` · ");
            push_all(&mut out, &it.2);
            push_str(&mut out, " · ");
            push_all(&mut out, &it.3);
            push_str(&mut out, "\n\n");
            if it.4.len() > 0 {
                push_all(&mut out, &it.4);
                push_str(&mut out, "\n\n");
            }
            proof {
                assert(out@ =~= b2 + render_pitem(piv(its@[j as int])));
            }
            j += 1;
        }
        proof {
            assert(pisv(its@).take(its.len() as int) =~= pisv(its@));
            assert(out@ =~= before + "## "@ + spec_format_date(groups@[i as int].0@, fmt@) + "\n\n"@
                + render_pitems(pisv(groups@[i as int].1@)));
        }
        i += 1;
    }
    proof {
        assert(pgv(groups@).take(groups.len() as int) =~= pgv(groups@));
    }
    to_string(&out)
}

fn pitem_order_exec(a: &ExecPItem, b: &ExecPItem) -> (r: i8)
    ensures
        r as int == pitem_order(piv(*a), piv(*b)),
{
    let c = text_order_exec(&a.1, &b.1);
    if c != 0 {
        c
    } else {
        text_order_exec(&a.2, &b.2)
    }
}

fn sort_pitems_exec(items: Vec<ExecPItem>) -> (r: Vec<ExecPItem>)
    ensures
        pisv(r@) == sort_pitems(pisv(items@)),
{
    let ghost a = items@;
    let mut out: Vec<ExecPItem> = Vec::new();
    proof {
        assert(pisv(a.take(0)) =~= Seq::<PItem>::empty());
    }
    for x in it: items.into_iter()
        invariant
            it.seq() == a,
            pisv(out@) == sort_pitems(pisv(a.take(it.index() as int))),
    {
        proof {
            assert(pisv(a.take(it.index() + 1)).drop_last() =~= pisv(a.take(it.index() as int)));
            assert(pisv(a.take(it.index() + 1)).last() == piv(x));
        }
        let ghost s = pisv(out@);
        let mut p: usize = 0;
        proof {
            assert(s.skip(0) =~= s);
        }
        while p < out.len() && pitem_order_exec(&out[p], &x) <= 0
            invariant
                0 <= p <= out.len(),
                s == pisv(out@),
                pitem_pos(s, piv(x)) == p + pitem_pos(s.skip(p as int), piv(x)),
            decreases out.len() - p,
        {
            proof {
                assert(s.skip(p as int).drop_first() =~= s.skip(p + 1));
                assert(s.skip(p as int)[0] == piv(out@[p as int]));
            }
            p += 1;
        }
        proof {
            if p < out.len() {
                assert(s.skip(p as int)[0] == piv(out@[p as int]));
            }
        }
        let ghost xv = piv(x);
        out.insert(p, x);
        proof {
            assert(pisv(out@) =~= s.insert(p as int, xv));
        }
    }
    proof {
        assert(a.take(a.len() as int) =~= a);
    }
    out
}

fn sort_pgroups_exec(groups: Vec<ExecPGroup>) -> (r: Vec<ExecPGroup>)
    ensures
        pgv(r@) == sort_pgroups_desc(pgv(groups@)),
{
    let ghost a = groups@;
    let mut out: Vec<ExecPGroup> = Vec::new();
    proof {
        assert(pgv(a.take(0)) =~= Seq::<PGroup>::empty());
    }
    for g in it: groups.into_iter()
        invariant
            it.seq() == a,
            pgv(out@) == sort_pgroups_desc(pgv(a.take(it.index() as int))),
    {
        proof {
            assert(pgv(a.take(it.index() + 1)).drop_last() =~= pgv(a.take(it.index() as int)));
            assert(pgv(a.take(it.index() + 1)).last() == (g.0@, pisv(g.1@)));
        }
        let ghost s = pgv(out@);
        let mut p: usize = 0;
        proof {
            assert(s.skip(0) =~= s);
        }
        while p < out.len() && text_order_exec(&out[p].0, &g.0) >= 0
            invariant
                0 <= p <= out.len(),
                s == pgv(out@),
                pgroup_pos(s, g.0@) == p + pgroup_pos(s.skip(p as int), g.0@),
            decreases out.len() - p,
        {
            proof {
                assert(s.skip(p as int).drop_first() =~= s.skip(p + 1));
                assert(s.skip(p as int)[0].0 == out@[p as int].0@);
            }
            p += 1;
        }
        proof {
            if p < out.len() {
                assert(s.skip(p as int)[0].0 == out@[p as int].0@);
            }
        }
        let ghost gview = (g.0@, pisv(g.1@));
        out.insert(p, g);
        proof {
            assert(pgv(out@) =~= s.insert(p as int, gview));
        }
    }
    proof {
        assert(a.take(a.len() as int) =~= a);
    }
    out
}

/// File one personal-scoped entry on `personal.md` (given its current
/// text): under its date, ordered by time and title, dates newest first, the
/// Overview kept. The date must be `YYYY-MM-DD`.
pub fn upsert_personal_item(
    existing: &str,
    date: &str,
    item_id: &str,
    time: &str,
    title: &str,
    dest: &str,
    body: &str,
    date_fmt: &str,
    time_fmt: &str,
) -> (r: Result<String, String>)
    ensures
        r matches Ok(t) ==> naive_date_parse(date@, pat_iso()) is Some && t@
            == spec_upsert_personal_item(
            existing@,
            date@,
            item_id@,
            time@,
            title@,
            dest@,
            body@,
            date_fmt@,
            time_fmt@,
        ),
        r matches Err(e) ==> naive_date_parse(date@, pat_iso()) is None && e@ == date_error(date@),
{
    match valid_date(date) {
        Ok(_) => {},
        Err(e) => return Err(e),
    }
    let mut groups = parse_personal_by_date(existing, date_fmt);
    let display_time = format_time(time, time_fmt);
    let tc = chars_of(title);
    let t = if is_blank_exec(&tc) {
        chars_of("Entry")
    } else {
        take_chars_exec(&trim_exec(&tc), 80)
    };
    let dc = chars_of(dest);
    let d = if is_blank_exec(&dc) {
        chars_of("note")
    } else {
        trim_exec(&dc)
    };
    let bc = chars_of(body);
    let entry: ExecPItem = (chars_of(item_id), chars_of(display_time.as_str()), t, d, trim_exec(&bc));
    let ghost it = piv(entry);
    proof {
        assert(it == new_pitem(item_id@, time@, title@, dest@, body@, time_fmt@));
    }
    let datec = chars_of(date);
    let ghost gs = pgv(groups@);
    let mut k: usize = 0;
    proof {
        assert(gs.skip(0) =~= gs);
    }
    while k < groups.len() && !eq(&groups[k].0, &datec)
        invariant
            0 <= k <= groups.len(),
            gs == pgv(groups@),
            datec@ == date@,
            first_pgroup(gs, date@) == match first_pgroup(gs.skip(k as int), date@) {
                Some(j) => Some(j + k),
                None => None,
            },
        decreases groups.len() - k,
    {
        proof {
            assert(gs.skip(k as int).drop_first() =~= gs.skip(k + 1));
            assert(gs.skip(k as int)[0].0 == groups@[k as int].0@);
        }
        k += 1;
    }
    if k < groups.len() {
        proof {
            assert(gs.skip(k as int)[0].0 == date@);
        }
        let mut taken: Vec<ExecPItem> = Vec::new();
        std::mem::swap(&mut taken, &mut groups[k].1);
        proof {
            assert(pisv(taken@) == gs[k as int].1);
        }
        let ghost tv = pisv(taken@);
        taken.push(entry);
        proof {
            assert(pisv(taken@) =~= tv.push(it));
        }
        let sorted = sort_pitems_exec(taken);
        groups.set(k, (datec, sorted));
        proof {
            assert(pgv(groups@) =~= gs.update(k as int, (date@, sort_pitems(gs[k as int].1.push(it)))));
        }
    } else {
        let mut one: Vec<ExecPItem> = Vec::new();
        one.push(entry);
        proof {
            assert(pisv(one@) =~= seq![it]);
        }
        pgroup_push(&mut groups, datec, one);
    }
    let groups = sort_pgroups_exec(groups);
    let overview = extract_overview_body(existing);
    Ok(render_personal_document(&groups, date_fmt, overview))
}

fn clear_groups_exec(groups: Vec<ExecPGroup>, id: &[char]) -> (r: Vec<ExecPGroup>)
    ensures
        pgv(r@) == clear_groups(pgv(groups@), id@),
{
    let ghost a = groups@;
    let mut out: Vec<ExecPGroup> = Vec::new();
    proof {
        assert(pgv(a.take(0)) =~= Seq::<PGroup>::empty());
    }
    for g in it: groups.into_iter()
        invariant
            it.seq() == a,
            pgv(out@) == clear_groups(pgv(a.take(it.index() as int)), id@),
    {
        proof {
            assert(pgv(a.take(it.index() + 1)).drop_last() =~= pgv(a.take(it.index() as int)));
            assert(pgv(a.take(it.index() + 1)).last() == (g.0@, pisv(g.1@)));
        }
        let (d, its) = g;
        let ghost iv0 = its@;
        let mut kept: Vec<ExecPItem> = Vec::new();
        proof {
            assert(pisv(iv0.take(0)) =~= Seq::<PItem>::empty());
        }
        for x in it2: its.into_iter()
            invariant
                it2.seq() == iv0,
                pisv(kept@) == drop_id(pisv(iv0.take(it2.index() as int)), id@),
        {
            proof {
                assert(pisv(iv0.take(it2.index() + 1)).drop_last() =~= pisv(iv0.take(it2.index() as int)));
                assert(pisv(iv0.take(it2.index() + 1)).last() == piv(x));
            }
            if !eq(&x.0, id) {
                let ghost before = kept@;
                let ghost xv = piv(x);
                kept.push(x);
                proof {
                    assert(pisv(kept@) =~= pisv(before).push(xv));
                }
            }
        }
        proof {
            assert(iv0.take(iv0.len() as int) =~= iv0);
        }
        if kept.len() > 0 {
            pgroup_push(&mut out, d, kept);
        }
    }
    proof {
        assert(a.take(a.len() as int) =~= a);
    }
    out
}

/// `personal.md` without capture `item_id`'s entries (for re-triage); `None`
/// when the page does not mention the capture and is left alone.
pub fn clear_personal_item(existing: &str, item_id: &str, date_fmt: &str) -> (r: Option<String>)
    ensures
        r matches Some(t) ==> spec_clear_personal_item(existing@, item_id@, date_fmt@) == Some(t@),
        r is None ==> spec_clear_personal_item(existing@, item_id@, date_fmt@) is None,
{
    let ec = chars_of(existing);
    let mut needle: Vec<char> = Vec::new();
    push_str(&mut needle, "`");
    push_str(&mut needle, item_id);
    push_str(&mut needle, "`");
    if ec.len() == 0 || !contains_exec(&ec, &needle) {
        return None;
    }
    let groups = parse_personal_by_date(existing, date_fmt);
    let idc = chars_of(item_id);
    let groups = clear_groups_exec(groups, &idc);
    let groups = sort_pgroups_exec(groups);
    let overview = extract_overview_body(existing);
    Some(render_personal_document(&groups, date_fmt, overview))
}


// ------------------------------------------------------------------ the Overview survives filing

/// The lines of the fixed intro.
pub open spec fn intro_lines() -> Seq<Seq<char>> {
    seq![
        "# Personal"@,
        Seq::<char>::empty(),
        "Life notes and personal-scoped entries over time. Project work that happens to be"@,
        "personal-scoped also appears here as a short pointer; the full log lives on the"@,
        "project page."@,
        Seq::<char>::empty()
    ]
}

#[verifier::rlimit(100)]
proof fn lemma_intro()
    ensures
        PERSONAL_INTRO@ == crate::text::lines_nl(intro_lines()),
        lines(PERSONAL_INTRO@) == intro_lines(),
        PERSONAL_INTRO@.last() == '\n',
        crate::overview::runs_through(intro_lines(), false),
{
    reveal_strlit("# Personal");
    reveal_strlit("Life notes and personal-scoped entries over time. Project work that happens to be");
    reveal_strlit("personal-scoped also appears here as a short pointer; the full log lives on the");
    reveal_strlit("project page.");
    reveal_strlit("## Overview");
    reveal_strlit("# Personal\n\nLife notes and personal-scoped entries over time. Project work that happens to be\npersonal-scoped also appears here as a short pointer; the full log lives on the\nproject page.\n\n");
    let h = intro_lines();
    assert(crate::text::lines_nl(h) =~= PERSONAL_INTRO@) by {
        reveal_with_fuel(crate::text::lines_nl, 7);
    }
    assert forall|k: int| 0 <= k < h.len() implies crate::text::clean_line(#[trigger] h[k]) && trim(h[k]) != crate::overview::overview_heading() by {
        let l = h[k];
        if l.len() > 0 {
            assert(!crate::text::is_ws(l[0]));
            crate::text::lemma_trim_start_edges(l);
            assert(crate::text::trim_start(l) == l);
            crate::text::lemma_trim_end_edges(l);
            let t = trim(l);
            if t.len() >= 2 {
                assert(t[0] == l[0]);
                assert(t[1] == l[1]);
            }
        } else {
            assert(trim(l) =~= l);
        }
    }
    crate::overview::lemma_runs_through_no_heading(h);
    crate::text::lemma_lines_nl_roundtrip(h);
    crate::text::lemma_lines_nl_ends(h);
}

proof fn lemma_pscan_dates(ls: Seq<Seq<char>>, fmt: Seq<char>)
    ensures
        forall|k: int| 0 <= k < personal_scan(ls, fmt).0.len() ==> crate::entity::iso_text(#[trigger] personal_scan(ls, fmt).0[k].0),
        personal_scan(ls, fmt).1 matches Some(d) ==> crate::entity::iso_text(d),
    decreases ls.len(),
{
    if ls.len() > 0 {
        lemma_pscan_dates(ls.drop_last(), fmt);
        let line = ls.last();
        match heading_date(line, fmt) {
            Some(d) => {
                let t = trim(trim(line.skip(3)));
                let r = crate::datetime::parse_first(t, crate::datetime::date_patterns(fmt))->0;
                assert(d == crate::calendar::date_text(r.0 as int, r.1 as int, r.2 as int, pat_iso()));
                assert(crate::entity::iso_text(d));
            },
            None => {},
        }
    }
}

proof fn lemma_clear_groups_from(gs: Seq<PGroup>, id: Seq<char>)
    ensures
        forall|i: int| 0 <= i < clear_groups(gs, id).len() ==> exists|j: int| 0 <= j < gs.len() && (#[trigger] clear_groups(gs, id)[i]).0 == gs[j].0,
    decreases gs.len(),
{
    if gs.len() > 0 {
        lemma_clear_groups_from(gs.drop_last(), id);
        let rest = clear_groups(gs.drop_last(), id);
        assert forall|i: int| 0 <= i < clear_groups(gs, id).len() implies exists|j: int| 0 <= j < gs.len() && (#[trigger] clear_groups(gs, id)[i]).0 == gs[j].0 by {
            if i < rest.len() {
                assert(clear_groups(gs, id)[i] == rest[i]);
                let j = choose|j: int| 0 <= j < gs.drop_last().len() && rest[i].0 == gs.drop_last()[j].0;
                assert(gs.drop_last()[j] == gs[j]);
            } else {
                assert(clear_groups(gs, id)[i].0 == gs[gs.len() - 1].0);
            }
        }
    }
}

proof fn lemma_pgroup_pos_bounds(s: Seq<PGroup>, d: Seq<char>)
    ensures
        0 <= pgroup_pos(s, d) <= s.len(),
    decreases s.len(),
{
    if s.len() > 0 && !(text_order(s[0].0, d) < 0) {
        lemma_pgroup_pos_bounds(s.drop_first(), d);
    }
}

proof fn lemma_sort_pgroups_from(gs: Seq<PGroup>)
    ensures
        sort_pgroups_desc(gs).len() == gs.len(),
        forall|i: int| 0 <= i < sort_pgroups_desc(gs).len() ==> exists|j: int| 0 <= j < gs.len() && #[trigger] sort_pgroups_desc(gs)[i] == gs[j],
    decreases gs.len(),
{
    if gs.len() > 0 {
        lemma_sort_pgroups_from(gs.drop_last());
        let s0 = sort_pgroups_desc(gs.drop_last());
        let p = pgroup_pos(s0, gs.last().0);
        lemma_pgroup_pos_bounds(s0, gs.last().0);
        assert forall|i: int| 0 <= i < sort_pgroups_desc(gs).len() implies exists|j: int| 0 <= j < gs.len() && #[trigger] sort_pgroups_desc(gs)[i] == gs[j] by {
            if i < p {
                assert(sort_pgroups_desc(gs)[i] == s0[i]);
                let j = choose|j: int| 0 <= j < gs.drop_last().len() && s0[i] == gs.drop_last()[j];
                assert(gs.drop_last()[j] == gs[j]);
            } else if i == p {
                assert(sort_pgroups_desc(gs)[i] == gs[gs.len() - 1]);
            } else {
                assert(sort_pgroups_desc(gs)[i] == s0[i - 1]);
                let j = choose|j: int| 0 <= j < gs.drop_last().len() && s0[i - 1] == gs.drop_last()[j];
                assert(gs.drop_last()[j] == gs[j]);
            }
        }
    }
}

proof fn lemma_plog_prefix(gs: Seq<PGroup>, fmt: Seq<char>)
    requires
        gs.len() > 0,
    ensures
        render_pgroups(gs, fmt).len() >= ("## "@ + spec_format_date(gs[0].0, fmt) + "\n\n"@).len(),
        render_pgroups(gs, fmt).take(("## "@ + spec_format_date(gs[0].0, fmt) + "\n\n"@).len() as int)
            == "## "@ + spec_format_date(gs[0].0, fmt) + "\n\n"@,
    decreases gs.len(),
{
    let pre = "## "@ + spec_format_date(gs[0].0, fmt) + "\n\n"@;
    let r = render_pgroups(gs, fmt);
    if gs.len() == 1 {
        assert(gs.drop_last() =~= Seq::<PGroup>::empty());
        assert(render_pgroups(gs.drop_last(), fmt) == Seq::<char>::empty());
        assert(r =~= pre + render_pitems(gs.last().1));
        assert(r.take(pre.len() as int) =~= pre);
    } else {
        lemma_plog_prefix(gs.drop_last(), fmt);
        assert(gs.drop_last()[0] == gs[0]);
        let a = render_pgroups(gs.drop_last(), fmt);
        assert(r =~= a + ("## "@ + spec_format_date(gs.last().0, fmt) + "\n\n"@ + render_pitems(gs.last().1)));
        assert(r.take(pre.len() as int) =~= a.take(pre.len() as int));
    }
}

/// The log of a personal page starts, if at all, with a `## ` date heading
/// that is no Overview heading.
#[verifier::spinoff_prover]
#[verifier::rlimit(60)]
proof fn lemma_plog_starts_dated(gs: Seq<PGroup>, date: Seq<char>, fmt: Seq<char>)
    requires
        forall|k: int|
            0 <= k < gs.len() ==> crate::entity::iso_text(#[trigger] gs[k].0) || (gs[k].0 == date && trim(date) == date
                && naive_date_parse(date, pat_iso()) is Some),
    ensures
        lines(render_pgroups(gs, fmt)).len() > 0 ==> starts_with(lines(render_pgroups(gs, fmt))[0], "## "@)
            && trim(lines(render_pgroups(gs, fmt))[0]) != crate::overview::overview_heading(),
        gs.len() == 0 ==> render_pgroups(gs, fmt).len() == 0,
{
    reveal_strlit("## ");
    reveal_strlit("## Overview");
    reveal_strlit("\n\n");
    if gs.len() > 0 {
        assert(crate::entity::iso_text(gs[0].0) || (gs[0].0 == date && trim(date) == date
            && naive_date_parse(date, pat_iso()) is Some));
        crate::entity::lemma_shown_date(gs[0].0, date, fmt);
        let x = spec_format_date(gs[0].0, fmt);
        crate::entity::lemma_date_like_trim(x);
        let head = "## "@ + x;
        let k = head.len() as int;
        lemma_plog_prefix(gs, fmt);
        let r = render_pgroups(gs, fmt);
        assert(r.take(k + 1) =~= head + seq!['\n']);
        assert forall|j: int| 0 <= j < k implies r[j] != '\n' by {
            assert(r[j] == r.take(k + 1)[j]);
            if j >= 3 {
                assert(crate::entity::date_char(x[j - 3]));
            }
        }
        assert(r[k] == r.take(k + 1)[k]);
        crate::text::lemma_first_nl_at(r, k);
        assert(r.take(k) =~= head);
        assert(head.last() == x.last());
        assert(crate::text::strip_cr(head) == head);
        assert(lines(r)[0] == head);
        assert(head[0] == '#');
        crate::text::lemma_trim_noop(head);
        assert(starts_with(head, "## "@)) by {
            assert(head.take(3) =~= "## "@);
        }
        assert(trim(head) != crate::overview::overview_heading()) by {
            if trim(head) == crate::overview::overview_heading() {
                assert(head[3] == x[0]);
                assert(crate::entity::date_char(x[0]));
                assert("## Overview"@[3] == 'O');
            }
        }
    }
}

/// A personal page rendered with Overview `o` reads back with Overview `o`.
proof fn lemma_personal_page_reads_back(gs: Seq<PGroup>, date: Seq<char>, fmt: Seq<char>, o: Seq<char>)
    requires
        o.len() > 0,
        o.last() != '\n',
        crate::text::no_cr(o),
        trim(o) == o,
        !crate::text::is_ws(o[0]),
        !crate::text::is_ws(o.last()),
        forall|k: int| 0 <= k < lines(o).len() ==> crate::overview::plain_line(#[trigger] lines(o)[k]),
        forall|k: int|
            0 <= k < gs.len() ==> crate::entity::iso_text(#[trigger] gs[k].0) || (gs[k].0 == date && trim(date) == date
                && naive_date_parse(date, pat_iso()) is Some),
    ensures
        spec_extract_overview_body(spec_render_personal_document(gs, fmt, Some(o))) == Some(o),
{
    reveal_strlit("## Overview\n\n");
    reveal_strlit("\n\n");
    lemma_intro();
    crate::overview::lemma_section_scannable(o);
    lemma_plog_starts_dated(gs, date, fmt);
    crate::text::lemma_trim_idempotent(o);
    let sec = crate::overview::overview_section(o);
    let log = render_pgroups(gs, fmt);
    let page = spec_render_personal_document(gs, fmt, Some(o));
    assert(page =~= PERSONAL_INTRO@ + sec + log);
    crate::text::lemma_lines_concat(PERSONAL_INTRO@, sec + log);
    crate::text::lemma_lines_concat(sec, log);
    assert(PERSONAL_INTRO@ + sec + log =~= PERSONAL_INTRO@ + (sec + log));
    assert(lines(page) =~= intro_lines() + lines(sec) + lines(log));
    crate::overview::lemma_extract_written(intro_lines(), lines(log), o);
}

proof fn lemma_first_pgroup_props(gs: Seq<PGroup>, date: Seq<char>)
    ensures
        first_pgroup(gs, date) matches Some(j) ==> 0 <= j < gs.len() && gs[j].0 == date,
    decreases gs.len(),
{
    if gs.len() > 0 && gs[0].0 != date {
        lemma_first_pgroup_props(gs.drop_first(), date);
    }
}

/// Filing a personal entry keeps the page's Overview: it reads back as it
/// read before. It holds for pages without carriage returns whose Overview
/// has no line the reader would take for the end of the section once
/// trimmed, when the filed date is a plain `YYYY-MM-DD` date.
pub proof fn law_personal_filing_keeps_the_overview(
    existing: Seq<char>,
    date: Seq<char>,
    item_id: Seq<char>,
    time: Seq<char>,
    title: Seq<char>,
    dest: Seq<char>,
    body: Seq<char>,
    fmt: Seq<char>,
    time_fmt: Seq<char>,
)
    requires
        crate::text::no_cr(existing),
        spec_extract_overview_body(existing) is Some,
        forall|k: int|
            0 <= k < lines(spec_extract_overview_body(existing)->0).len() ==> crate::overview::plain_line(
                #[trigger] lines(spec_extract_overview_body(existing)->0)[k],
            ),
        trim(date) == date,
        naive_date_parse(date, pat_iso()) is Some,
    ensures
        spec_extract_overview_body(spec_upsert_personal_item(existing, date, item_id, time, title, dest, body, fmt, time_fmt))
            == spec_extract_overview_body(existing),
{
    let o = spec_extract_overview_body(existing)->0;
    crate::entity::lemma_extracted_clean(existing);
    let it = new_pitem(item_id, time, title, dest, body, time_fmt);
    let pg = personal_groups(existing, fmt);
    lemma_pscan_dates(lines(existing), fmt);
    assert(forall|k: int| 0 <= k < pg.len() ==> crate::entity::iso_text(#[trigger] pg[k].0));
    let us = upsert_pgroup(pg, date, it);
    lemma_first_pgroup_props(pg, date);
    assert forall|k: int| 0 <= k < us.len() implies crate::entity::iso_text(#[trigger] us[k].0) || (us[k].0 == date
        && trim(date) == date && naive_date_parse(date, pat_iso()) is Some) by {
        match first_pgroup(pg, date) {
            Some(j) => {
                assert(us == pg.update(j, (date, sort_pitems(pg[j].1.push(it)))));
                if k != j {
                    assert(us[k] == pg[k]);
                }
            },
            None => {
                assert(us == pg.push((date, seq![it])));
                if k < pg.len() {
                    assert(us[k] == pg[k]);
                }
            },
        }
    }
    let gs = sort_pgroups_desc(us);
    lemma_sort_pgroups_from(us);
    assert forall|k: int| 0 <= k < gs.len() implies crate::entity::iso_text(#[trigger] gs[k].0) || (gs[k].0 == date
        && trim(date) == date && naive_date_parse(date, pat_iso()) is Some) by {
        let j = choose|j: int| 0 <= j < us.len() && gs[k] == us[j];
        assert(crate::entity::iso_text(us[j].0) || (us[j].0 == date && trim(date) == date
            && naive_date_parse(date, pat_iso()) is Some));
    }
    lemma_personal_page_reads_back(gs, date, fmt, o);
}

/// Clearing a capture from the personal page keeps the page's Overview,
/// under the same conditions as filing.
pub proof fn law_personal_clearing_keeps_the_overview(existing: Seq<char>, id: Seq<char>, fmt: Seq<char>)
    requires
        crate::text::no_cr(existing),
        spec_extract_overview_body(existing) is Some,
        forall|k: int|
            0 <= k < lines(spec_extract_overview_body(existing)->0).len() ==> crate::overview::plain_line(
                #[trigger] lines(spec_extract_overview_body(existing)->0)[k],
            ),
    ensures
        spec_clear_personal_item(existing, id, fmt) matches Some(page) ==> spec_extract_overview_body(page)
            == spec_extract_overview_body(existing),
{
    if spec_clear_personal_item(existing, id, fmt) is Some {
        let o = spec_extract_overview_body(existing)->0;
        crate::entity::lemma_extracted_clean(existing);
        let pg = personal_groups(existing, fmt);
        lemma_pscan_dates(lines(existing), fmt);
        let cg = clear_groups(pg, id);
        lemma_clear_groups_from(pg, id);
        let gs = sort_pgroups_desc(cg);
        lemma_sort_pgroups_from(cg);
        let e: Seq<char> = Seq::empty();
        assert forall|k: int| 0 <= k < gs.len() implies crate::entity::iso_text(#[trigger] gs[k].0) || (gs[k].0 == e
            && trim(e) == e && naive_date_parse(e, pat_iso()) is Some) by {
            let j = choose|j: int| 0 <= j < cg.len() && gs[k] == cg[j];
            let i = choose|i: int| 0 <= i < pg.len() && cg[j].0 == pg[i].0;
            assert(crate::entity::iso_text(pg[i].0));
        }
        lemma_personal_page_reads_back(gs, e, fmt, o);
    }
}

// ------------------------------------------------------------------ dates stay newest first

/// Dates in descending order.
pub open spec fn pgroups_newest_first(gs: Seq<PGroup>) -> bool {
    forall|i: int, j: int| 0 <= i < j < gs.len() ==> text_order(#[trigger] gs[i].0, #[trigger] gs[j].0) >= 0
}

proof fn lemma_pgroup_pos_props(s: Seq<PGroup>, d: Seq<char>)
    ensures
        0 <= pgroup_pos(s, d) <= s.len(),
        forall|k: int| 0 <= k < pgroup_pos(s, d) ==> text_order(#[trigger] s[k].0, d) >= 0,
        pgroup_pos(s, d) < s.len() ==> text_order(s[pgroup_pos(s, d)].0, d) < 0,
    decreases s.len(),
{
    if s.len() > 0 && !(text_order(s[0].0, d) < 0) {
        lemma_pgroup_pos_props(s.drop_first(), d);
        assert forall|k: int| 0 <= k < pgroup_pos(s, d) implies text_order(#[trigger] s[k].0, d) >= 0 by {
            if k > 0 {
                assert(s[k] == s.drop_first()[k - 1]);
            }
        }
        if pgroup_pos(s, d) < s.len() {
            assert(s[pgroup_pos(s, d)] == s.drop_first()[pgroup_pos(s.drop_first(), d)]);
        }
    }
}

proof fn lemma_sort_pgroups_newest_first(gs: Seq<PGroup>)
    ensures
        pgroups_newest_first(sort_pgroups_desc(gs)),
    decreases gs.len(),
{
    if gs.len() > 0 {
        let s = sort_pgroups_desc(gs.drop_last());
        lemma_sort_pgroups_newest_first(gs.drop_last());
        let x = gs.last();
        let d = x.0;
        let p = pgroup_pos(s, d);
        lemma_pgroup_pos_props(s, d);
        let r = s.insert(p, x);
        assert(sort_pgroups_desc(gs) == r);
        assert forall|i: int, j: int| 0 <= i < j < r.len() implies text_order(#[trigger] r[i].0, #[trigger] r[j].0) >= 0 by {
            if j < p {
                assert(r[i] == s[i] && r[j] == s[j]);
            } else if j == p {
                assert(r[i] == s[i] && r[j] == x);
            } else if i < p {
                assert(r[i] == s[i] && r[j] == s[j - 1]);
            } else if i == p {
                assert(r[i] == x && r[j] == s[j - 1]);
                let a = s[p].0;
                let b = s[j - 1].0;
                crate::order::lemma_text_order(a, d);
                crate::order::lemma_text_order(a, b);
                crate::order::lemma_text_order(b, d);
                crate::order::lemma_text_order(d, b);
                crate::order::lemma_text_order_trans(b, a, d);
            } else {
                assert(r[i] == s[i - 1] && r[j] == s[j - 1]);
            }
        }
    }
}

/// `personal.md` keeps its dates newest first: the dates filing or clearing
/// writes back are in descending order, whatever order the page held them in.
pub proof fn law_personal_dates_stay_newest_first(
    existing: Seq<char>,
    date: Seq<char>,
    item_id: Seq<char>,
    time: Seq<char>,
    title: Seq<char>,
    dest: Seq<char>,
    body: Seq<char>,
    fmt: Seq<char>,
    time_fmt: Seq<char>,
)
    ensures
        pgroups_newest_first(
            sort_pgroups_desc(
                upsert_pgroup(personal_groups(existing, fmt), date, new_pitem(item_id, time, title, dest, body, time_fmt)),
            ),
        ),
        pgroups_newest_first(sort_pgroups_desc(clear_groups(personal_groups(existing, fmt), item_id))),
{
    lemma_sort_pgroups_newest_first(
        upsert_pgroup(personal_groups(existing, fmt), date, new_pitem(item_id, time, title, dest, body, time_fmt)),
    );
    lemma_sort_pgroups_newest_first(clear_groups(personal_groups(existing, fmt), item_id));
}

} // verus!
