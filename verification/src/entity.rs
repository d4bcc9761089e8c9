//! Project and area pages: a frontmatter block, a title, the Overview, and
//! a dated log, newest first. Within a date each capture owns a `### \`id\``
//! subsection, so two captures on one day both survive, and filing the same
//! capture again replaces only its own subsection.
use crate::datetime::{format_date, parse_date_to_iso, spec_format_date, spec_parse_date_to_iso, valid_date, date_error};
use crate::calendar::{naive_date_parse, pat_iso};
use crate::names::{slugify, spec_slugify};
use crate::order::{text_order, text_order_exec};
use crate::overview::{extract_overview_body, spec_extract_overview_body};
use crate::text::{
    chars_of, copy, eq, eq_str, is_blank, is_blank_exec, lines, lines_of, push_all, push_str,
    slice_of, split_once, split_once_str, starts_with, starts_with_str, to_string, trim, trim_end,
    trim_end_exec, trim_exec, vv,
};
use vstd::prelude::*;

verus! {

/// A capture's subsection: its id (`_legacy` for text under a date that
/// carries no id) and its body.
pub type Item = (Seq<char>, Seq<char>);

/// A dated section: the ISO date and its subsections.
pub type Group = (Seq<char>, Seq<Item>);

/// Reading state: sections done, the current date, its subsections so far,
/// the current subsection's id and its body so far.
pub type Scan = (Seq<Group>, Option<Seq<char>>, Seq<Item>, Option<Seq<char>>, Seq<char>);

pub type ExecItem = (Vec<char>, Vec<char>);

pub type ExecGroup = (Vec<char>, Vec<ExecItem>);

pub open spec fn iv(v: Seq<ExecItem>) -> Seq<Item> {
    v.map_values(|p: ExecItem| (p.0@, p.1@))
}

pub open spec fn gv(v: Seq<ExecGroup>) -> Seq<Group> {
    v.map_values(|g: ExecGroup| (g.0@, iv(g.1@)))
}

pub open spec fn ov(o: Option<Vec<char>>) -> Option<Seq<char>> {
    match o {
        Some(v) => Some(v@),
        None => None,
    }
}

/// The page body used when a page has no Overview yet.
pub const DEFAULT_ENTITY_OVERVIEW: &'static str = "Standing view of recent activity. Full dated log is below.\n";

// ------------------------------------------------------------------ specs

/// Close the current subsection: an id'd one is kept with its body trimmed,
/// so the blank lines around it are not carried into it on the next filing;
/// text under no id is kept as `_legacy`, trimmed, unless blank (a blank run
/// is carried on).
pub open spec fn flush_item(cur: Option<Seq<char>>, body: Seq<char>, items: Seq<Item>) -> (
    Option<Seq<char>>,
    Seq<char>,
    Seq<Item>,
) {
    match cur {
        Some(id) => (None, seq![], items.push((id, trim(body)))),
        None => if !is_blank(body) {
            (None, seq![], items.push(("_legacy"@, trim(body))))
        } else {
            (None, body, items)
        },
    }
}

/// The ISO date a line opens a section for, if it is a `## ` date heading.
pub open spec fn heading_date(line: Seq<char>, fmt: Seq<char>) -> Option<Seq<char>> {
    if starts_with(line, "## "@) {
        spec_parse_date_to_iso(trim(line.skip(3)), fmt)
    } else {
        None
    }
}

/// The id a line opens a subsection for, if it is a ``### `id` `` line.
pub open spec fn item_heading(line: Seq<char>) -> Option<Seq<char>> {
    if starts_with(line, "### `"@) {
        match split_once(line.skip(5), "`"@) {
            Some(p) => Some(p.0),
            None => None,
        }
    } else {
        None
    }
}

pub open spec fn entity_step(s: Scan, line: Seq<char>, fmt: Seq<char>) -> Scan {
    let (groups, cur_date, items, cur, body) = s;
    match heading_date(line, fmt) {
        Some(d) => {
            let f = flush_item(cur, body, items);
            match cur_date {
                Some(prev) => (groups.push((prev, f.2)), Some(d), seq![], f.0, f.1),
                None => (groups, Some(d), f.2, f.0, f.1),
            }
        },
        None => if cur_date is None {
            s
        } else {
            match item_heading(line) {
                Some(id) => {
                    let f = flush_item(cur, body, items);
                    (groups, cur_date, f.2, Some(id), f.1)
                },
                None => (groups, cur_date, items, cur, body + line + "\n"@),
            }
        },
    }
}

pub open spec fn entity_scan(ls: Seq<Seq<char>>, fmt: Seq<char>) -> Scan
    decreases ls.len(),
{
    if ls.len() == 0 {
        (seq![], None, seq![], None, seq![])
    } else {
        entity_step(entity_scan(ls.drop_last(), fmt), ls.last(), fmt)
    }
}

/// The dated sections of a page, in page order.
pub open spec fn entity_groups(text: Seq<char>, fmt: Seq<char>) -> Seq<Group> {
    let s = entity_scan(lines(text), fmt);
    let f = flush_item(s.3, s.4, s.2);
    match s.1 {
        Some(d) => s.0.push((d, f.2)),
        None => s.0,
    }
}

pub open spec fn first_group(gs: Seq<Group>, date: Seq<char>) -> Option<int>
    decreases gs.len(),
{
    if gs.len() == 0 {
        None
    } else if gs[0].0 == date {
        Some(0)
    } else {
        match first_group(gs.drop_first(), date) {
            Some(k) => Some(k + 1),
            None => None,
        }
    }
}

pub open spec fn without_id(items: Seq<Item>, id: Seq<char>) -> Seq<Item>
    decreases items.len(),
{
    if items.len() == 0 {
        seq![]
    } else {
        let rest = without_id(items.drop_last(), id);
        if items.last().0 == id {
            rest
        } else {
            rest.push(items.last())
        }
    }
}

/// The capture's subsection (re)placed last under its date, creating the
/// date when the page has none.
pub open spec fn upsert_group(gs: Seq<Group>, date: Seq<char>, item_id: Seq<char>, body: Seq<char>) -> Seq<
    Group,
> {
    match first_group(gs, date) {
        Some(k) => gs.update(k, (date, without_id(gs[k].1, item_id).push((item_id, trim(body))))),
        None => gs.push((date, seq![(item_id, trim(body))])),
    }
}

/// Where a section with date `d` goes among sections sorted newest first:
/// after every one that is not older.
pub open spec fn insert_pos(s: Seq<Group>, d: Seq<char>) -> int
    decreases s.len(),
{
    if s.len() == 0 || text_order(s[0].0, d) < 0 {
        0
    } else {
        1 + insert_pos(s.drop_first(), d)
    }
}

/// Sections sorted newest first, sections of one date in page order.
pub open spec fn sort_desc(gs: Seq<Group>) -> Seq<Group>
    decreases gs.len(),
{
    if gs.len() == 0 {
        seq![]
    } else {
        let s = sort_desc(gs.drop_last());
        s.insert(insert_pos(s, gs.last().0), gs.last())
    }
}

pub open spec fn render_item(it: Item) -> Seq<char> {
    if it.0 == "_legacy"@ {
        if it.1.len() == 0 {
            seq![]
        } else {
            it.1 + "\n\n"@
        }
    } else {
        "### `"@ + it.0 + "`\n\n"@ + if it.1.len() == 0 {
            seq![]
        } else {
            it.1 + "\n\n"@
        }
    }
}

pub open spec fn render_items(its: Seq<Item>) -> Seq<char>
    decreases its.len(),
{
    if its.len() == 0 {
        seq![]
    } else {
        render_items(its.drop_last()) + render_item(its.last())
    }
}

pub open spec fn render_groups(gs: Seq<Group>, fmt: Seq<char>) -> Seq<char>
    decreases gs.len(),
{
    if gs.len() == 0 {
        seq![]
    } else {
        render_groups(gs.drop_last(), fmt) + "## "@ + spec_format_date(gs.last().0, fmt) + "\n\n"@
            + render_items(gs.last().1)
    }
}

pub open spec fn entity_header(
    slug: Seq<char>,
    name: Seq<char>,
    kind: Seq<char>,
    scope: Seq<char>,
    overview: Seq<char>,
) -> Seq<char> {
    "---\nslug: "@ + slug + "\nname: "@ + name + "\ntype: "@ + kind + "\nscope: "@ + scope
        + "\n---\n\n# "@ + name + "\n\n## Overview\n\n"@ + trim_end(overview) + "\n\n"@
}

pub open spec fn entity_kind(kind: Seq<char>) -> Seq<char> {
    if kind == "area"@ {
        "area"@
    } else {
        "project"@
    }
}

/// The page after filing `body` for capture `item_id` under `date`: the
/// Overview kept, the dated log re-sorted newest first.
pub open spec fn spec_upsert_entity_day(
    existing: Seq<char>,
    kind: Seq<char>,
    slug: Seq<char>,
    name: Seq<char>,
    scope: Seq<char>,
    date: Seq<char>,
    item_id: Seq<char>,
    body: Seq<char>,
    fmt: Seq<char>,
) -> Seq<char> {
    let gs = sort_desc(upsert_group(entity_groups(existing, fmt), date, item_id, body));
    let overview = match spec_extract_overview_body(existing) {
        Some(b) => b,
        None => DEFAULT_ENTITY_OVERVIEW@,
    };
    entity_header(spec_slugify(slug), name, entity_kind(kind), scope, overview) + render_groups(
        gs,
        fmt,
    )
}


proof fn lemma_without_id_twice(items: Seq<Item>, id: Seq<char>)
    ensures
        without_id(without_id(items, id), id) == without_id(items, id),
    decreases items.len(),
{
    if items.len() > 0 {
        lemma_without_id_twice(items.drop_last(), id);
        let rest = without_id(items.drop_last(), id);
        if items.last().0 != id {
            assert(rest.push(items.last()).drop_last() =~= rest);
        }
    }
}

proof fn lemma_first_group_props(gs: Seq<Group>, date: Seq<char>)
    ensures
        first_group(gs, date) matches Some(k) ==> 0 <= k < gs.len() && gs[k].0 == date,
        first_group(gs, date) is None ==> forall|j: int| 0 <= j < gs.len() ==> gs[j].0 != date,
    decreases gs.len(),
{
    if gs.len() > 0 {
        lemma_first_group_props(gs.drop_first(), date);
        assert forall|j: int| 0 < j < gs.len() implies gs[j] == gs.drop_first()[j - 1] by {}
    }
}

proof fn lemma_first_group_same(gs: Seq<Group>, hs: Seq<Group>, date: Seq<char>)
    requires
        gs.len() == hs.len(),
        forall|j: int| 0 <= j < gs.len() ==> #[trigger] gs[j].0 == hs[j].0,
    ensures
        first_group(gs, date) == first_group(hs, date),
    decreases gs.len(),
{
    if gs.len() > 0 {
        assert(gs[0].0 == hs[0].0);
        assert forall|j: int| 0 <= j < gs.drop_first().len() implies #[trigger] gs.drop_first()[j].0 == hs.drop_first()[j].0 by {
            assert(gs[j + 1].0 == hs[j + 1].0);
        }
        lemma_first_group_same(gs.drop_first(), hs.drop_first(), date);
    }
}

proof fn lemma_first_group_push(gs: Seq<Group>, g: Group, date: Seq<char>)
    requires
        first_group(gs, date) is None,
        g.0 == date,
    ensures
        first_group(gs.push(g), date) == Some(gs.len() as int),
    decreases gs.len(),
{
    if gs.len() > 0 {
        assert(gs.push(g).drop_first() =~= gs.drop_first().push(g));
        lemma_first_group_push(gs.drop_first(), g, date);
    }
}

/// Filing a capture under a date twice leaves the page's dated log as filing
/// it once with the second body: the first filing is replaced, not kept.
pub proof fn law_refiling_replaces(
    gs: Seq<Group>,
    date: Seq<char>,
    item_id: Seq<char>,
    first: Seq<char>,
    second: Seq<char>,
)
    ensures
        upsert_group(upsert_group(gs, date, item_id, first), date, item_id, second) == upsert_group(
            gs,
            date,
            item_id,
            second,
        ),
{
    let once = upsert_group(gs, date, item_id, first);
    lemma_first_group_props(gs, date);
    match first_group(gs, date) {
        Some(k) => {
            let items = without_id(gs[k].1, item_id).push((item_id, trim(first)));
            assert(once == gs.update(k, (date, items)));
            assert forall|j: int| 0 <= j < gs.len() implies #[trigger] gs[j].0 == once[j].0 by {}
            lemma_first_group_same(gs, once, date);
            assert(items.drop_last() =~= without_id(gs[k].1, item_id));
            assert(items.last().0 == item_id);
            assert(without_id(items, item_id) == without_id(without_id(gs[k].1, item_id), item_id));
            lemma_without_id_twice(gs[k].1, item_id);
            assert(once.update(k, (date, without_id(items, item_id).push((item_id, trim(second)))))
                =~= gs.update(k, (date, without_id(gs[k].1, item_id).push((item_id, trim(second))))));
        },
        None => {
            let g = (date, seq![(item_id, trim(first))]);
            lemma_first_group_push(gs, g, date);
            let items = seq![(item_id, trim(first))];
            assert(items.drop_last() =~= Seq::<Item>::empty());
            assert(items.last().0 == item_id);
            assert(without_id(Seq::<Item>::empty(), item_id) =~= Seq::<Item>::empty());
            assert(without_id(items, item_id) =~= Seq::<Item>::empty());
            assert(Seq::<Item>::empty().push((item_id, trim(second))) =~= seq![(item_id, trim(second))]);
            assert(once.update(gs.len() as int, (date, seq![(item_id, trim(second))])) =~= gs.push(
                (date, seq![(item_id, trim(second))]),
            ));
        },
    }
}

/// Filing one capture leaves every other capture's subsection under that
/// date as it was, in order.
pub proof fn law_other_captures_kept(gs: Seq<Group>, date: Seq<char>, item_id: Seq<char>, body: Seq<char>, k: int)
    requires
        first_group(gs, date) == Some(k),
    ensures
        upsert_group(gs, date, item_id, body)[k].1.drop_last() == without_id(gs[k].1, item_id),
        upsert_group(gs, date, item_id, body)[k].1.last() == (item_id, trim(body)),
        upsert_group(gs, date, item_id, body).len() == gs.len(),
{
    lemma_first_group_props(gs, date);
    assert(without_id(gs[k].1, item_id).push((item_id, trim(body))).drop_last() =~= without_id(gs[k].1, item_id));
}

// ------------------------------------------------------------------ exec

fn flush_item_exec(cur: &mut Option<Vec<char>>, body: &mut Vec<char>, items: &mut Vec<ExecItem>)
    ensures
        (ov(*final(cur)), final(body)@, iv(final(items)@)) == flush_item(
            ov(*old(cur)),
            old(body)@,
            iv(old(items)@),
        ),
{
    match cur.take() {
        Some(id) => {
            let b = trim_exec(body);
            items.push((id, b));
            *body = Vec::new();
            proof {
                assert(iv(items@) =~= iv(old(items)@).push((id@, trim(old(body)@))));
            }
        },
        None => {
            if !is_blank_exec(body) {
                let b = trim_exec(body);
                let mut l: Vec<char> = Vec::new();
                push_str(&mut l, "_legacy");
                items.push((l, b));
                *body = Vec::new();
                proof {
                    assert(iv(items@) =~= iv(old(items)@).push(("_legacy"@, trim(old(body)@))));
                }
            }
        },
    }
}

pub fn heading_date_exec(line: &[char], fmt: &str) -> (r: Option<String>)
    ensures
        r matches Some(d) ==> heading_date(line@, fmt@) == Some(d@),
        r is None ==> heading_date(line@, fmt@) is None,
{
    if starts_with_str(line, "## ") {
        proof {
            reveal_strlit("## ");
        }
        let rest = slice_of(line, 3, line.len());
        let t = to_string(&trim_exec(&rest));
        parse_date_to_iso(t.as_str(), fmt)
    } else {
        None
    }
}

pub fn item_heading_exec(line: &[char]) -> (r: Option<Vec<char>>)
    ensures
        r matches Some(id) ==> item_heading(line@) == Some(id@),
        r is None ==> item_heading(line@) is None,
{
    if starts_with_str(line, "### `") {
        proof {
            reveal_strlit("### `");
        }
        let rest = slice_of(line, 5, line.len());
        match split_once_str(&rest, "`") {
            Some((id, _)) => Some(id),
            None => None,
        }
    } else {
        None
    }
}

fn group_view_push(groups: &mut Vec<ExecGroup>, d: Vec<char>, items: Vec<ExecItem>)
    ensures
        gv(final(groups)@) == gv(old(groups)@).push((d@, iv(items@))),
{
    groups.push((d, items));
    proof {
        assert(gv(groups@) =~= gv(old(groups)@).push((d@, iv(items@))));
    }
}

/// The dated sections of a page, in page order.
fn parse_groups(existing: &str, fmt: &str) -> (r: Vec<ExecGroup>)
    ensures
        gv(r@) == entity_groups(existing@, fmt@),
{
    let ls = lines_of(existing);
    let ghost g = vv(ls@);
    let mut groups: Vec<ExecGroup> = Vec::new();
    let mut cur_date: Option<Vec<char>> = None;
    let mut items: Vec<ExecItem> = Vec::new();
    let mut cur: Option<Vec<char>> = None;
    let mut body: Vec<char> = Vec::new();
    let mut i: usize = 0;
    proof {
        assert(gv(groups@) =~= Seq::<Group>::empty());
        assert(iv(items@) =~= Seq::<Item>::empty());
        assert(g.take(0) =~= Seq::<Seq<char>>::empty());
    }
    while i < ls.len()
        invariant
            0 <= i <= ls.len(),
            g == vv(ls@),
            g == lines(existing@),
            (gv(groups@), ov(cur_date), iv(items@), ov(cur), body@) == entity_scan(
                g.take(i as int),
                fmt@,
            ),
        decreases ls.len() - i,
    {
        proof {
            assert(g.take(i + 1).drop_last() =~= g.take(i as int));
            assert(g.take(i + 1).last() == ls@[i as int]@);
        }
        let line = &ls[i];
        match heading_date_exec(line, fmt) {
            Some(d) => {
                flush_item_exec(&mut cur, &mut body, &mut items);
                match cur_date.take() {
                    Some(prev) => {
                        let mut done: Vec<ExecItem> = Vec::new();
                        std::mem::swap(&mut done, &mut items);
                        group_view_push(&mut groups, prev, done);
                        proof {
                            assert(iv(items@) =~= Seq::<Item>::empty());
                        }
                    },
                    None => {},
                }
                cur_date = Some(chars_of(d.as_str()));
            },
            None => {
                if cur_date.is_some() {
                    match item_heading_exec(line) {
                        Some(id) => {
                            flush_item_exec(&mut cur, &mut body, &mut items);
                            cur = Some(id);
                        },
                        None => {
                            push_all(&mut body, line);
                            body.push('\n');
                            proof {
                                reveal_strlit("\n");
                                assert(body@ =~= entity_scan(g.take(i as int), fmt@).4 + line@
                                    + "\n"@);
                            }
                        },
                    }
                }
            },
        }
        i += 1;
    }
    proof {
        assert(g.take(ls.len() as int) =~= g);
    }
    flush_item_exec(&mut cur, &mut body, &mut items);
    match cur_date {
        Some(d) => {
            group_view_push(&mut groups, d, items);
        },
        None => {},
    }
    groups
}

fn without_id_exec(items: Vec<ExecItem>, id: &[char]) -> (r: Vec<ExecItem>)
    ensures
        iv(r@) == without_id(iv(items@), id@),
{
    let ghost a = items@;
    let mut out: Vec<ExecItem> = Vec::new();
    for it in iter: items.into_iter()
        invariant
            iter.seq() == a,
            iv(out@) == without_id(iv(a.take(iter.index() as int)), id@),
    {
        proof {
            assert(iv(a.take(iter.index() + 1)).drop_last() =~= iv(a.take(iter.index() as int)));
            assert(iv(a.take(iter.index() + 1)).last() == (it.0@, it.1@));
        }
        if !eq(&it.0, id) {
            let ghost before = out@;
            out.push(it);
            proof {
                assert(iv(out@) =~= iv(before).push((it.0@, it.1@)));
            }
        }
    }
    proof {
        assert(a.take(a.len() as int) =~= a);
    }
    out
}

fn upsert_groups(groups: Vec<ExecGroup>, date: &str, item_id: &str, body: &str) -> (r: Vec<ExecGroup>)
    ensures
        gv(r@) == upsert_group(gv(groups@), date@, item_id@, body@),
{
    let dc = chars_of(date);
    let bc = chars_of(body);
    let tb = trim_exec(&bc);
    let idc = chars_of(item_id);
    let ghost gs = gv(groups@);
    let mut k: usize = 0;
    proof {
        assert(gs.skip(0) =~= gs);
    }
    while k < groups.len() && !eq(&groups[k].0, &dc)
        invariant
            0 <= k <= groups.len(),
            gs == gv(groups@),
            dc@ == date@,
            first_group(gs, date@) == match first_group(gs.skip(k as int), date@) {
                Some(j) => Some(j + k),
                None => None,
            },
        decreases groups.len() - k,
    {
        proof {
            assert(gs.skip(k as int).drop_first() =~= gs.skip(k + 1));
            assert(gs.skip(k as int)[0].0 == groups@[k as int].0@);
        }
        k += 1;
    }
    let mut groups = groups;
    if k < groups.len() {
        proof {
            assert(gs.skip(k as int)[0].0 == date@);
        }
        let mut taken: Vec<ExecItem> = Vec::new();
        std::mem::swap(&mut taken, &mut groups[k].1);
        let ghost old_items = iv(taken@);
        proof {
            assert(old_items == gs[k as int].1);
        }
        let mut kept = without_id_exec(taken, &idc);
        let ghost before = kept@;
        kept.push((idc, tb));
        proof {
            assert(iv(kept@) =~= iv(before).push((item_id@, trim(body@))));
        }
        let ghost mid = groups@;
        groups.set(k, (dc, kept));
        proof {
            assert(gv(groups@) =~= gs.update(k as int, (date@, without_id(gs[k as int].1, item_id@).push((item_id@, trim(body@))))));
        }
        groups
    } else {
        let mut one: Vec<ExecItem> = Vec::new();
        one.push((idc, tb));
        proof {
            assert(iv(one@) =~= seq![(item_id@, trim(body@))]);
        }
        group_view_push(&mut groups, dc, one);
        groups
    }
}

fn sort_groups_desc(groups: Vec<ExecGroup>) -> (r: Vec<ExecGroup>)
    ensures
        gv(r@) == sort_desc(gv(groups@)),
{
    let ghost a = groups@;
    let mut out: Vec<ExecGroup> = Vec::new();
    proof {
        assert(gv(a.take(0)) =~= Seq::<Group>::empty());
    }
    for g in it: groups.into_iter()
        invariant
            it.seq() == a,
            gv(out@) == sort_desc(gv(a.take(it.index() as int))),
    {
        proof {
            assert(gv(a.take(it.index() + 1)).drop_last() =~= gv(a.take(it.index() as int)));
            assert(gv(a.take(it.index() + 1)).last() == (g.0@, iv(g.1@)));
        }
        let ghost s = gv(out@);
        let mut p: usize = 0;
        proof {
            assert(s.skip(0) =~= s);
        }
        while p < out.len() && text_order_exec(&out[p].0, &g.0) >= 0
            invariant
                0 <= p <= out.len(),
                s == gv(out@),
                insert_pos(s, g.0@) == p + insert_pos(s.skip(p as int), g.0@),
            decreases out.len() - p,
        {
            proof {
                assert(s.skip(p as int).drop_first() =~= s.skip(p + 1));
                assert(s.skip(p as int)[0].0 == out@[p as int].0@);
            }
            p += 1;
        }
        proof {
            if p < out.len() {
                assert(s.skip(p as int)[0].0 == out@[p as int].0@);
            }
        }
        let ghost gview = (g.0@, iv(g.1@));
        out.insert(p, g);
        proof {
            assert(gv(out@) =~= s.insert(p as int, gview));
        }
    }
    proof {
        assert(a.take(a.len() as int) =~= a);
    }
    out
}

fn render_items_exec(out: &mut Vec<char>, items: &Vec<ExecItem>)
    ensures
        final(out)@ == old(out)@ + render_items(iv(items@)),
{
    let ghost start = out@;
    let mut i: usize = 0;
    while i < items.len()
        invariant
            0 <= i <= items.len(),
            out@ == start + render_items(iv(items@).take(i as int)),
        decreases items.len() - i,
    {
        proof {
            assert(iv(items@).take(i + 1).drop_last() =~= iv(items@).take(i as int));
            assert(iv(items@).take(i + 1).last() == (items@[i as int].0@, items@[i as int].1@));
        }
        let ghost before = out@;
        let (id, b) = (&items[i].0, &items[i].1);
        if eq_str(id, "_legacy") {
            if b.len() > 0 {
                push_all(out, b);
                push_str(out, "\n\n");
            }
        } else {
            push_str(out, "### `");
            push_all(out, id);
            push_str(out, "`\n\n");
            if b.len() > 0 {
                push_all(out, b);
                push_str(out, "\n\n");
            }
        }
        proof {
            assert(out@ =~= before + render_item((id@, b@)));
        }
        i += 1;
    }
    proof {
        assert(iv(items@).take(items.len() as int) =~= iv(items@));
    }
}

fn render_groups_exec(out: &mut Vec<char>, groups: &Vec<ExecGroup>, fmt: &str)
    ensures
        final(out)@ == old(out)@ + render_groups(gv(groups@), fmt@),
{
    let ghost start = out@;
    let mut i: usize = 0;
    while i < groups.len()
        invariant
            0 <= i <= groups.len(),
            out@ == start + render_groups(gv(groups@).take(i as int), fmt@),
        decreases groups.len() - i,
    {
        proof {
            assert(gv(groups@).take(i + 1).drop_last() =~= gv(groups@).take(i as int));
            assert(gv(groups@).take(i + 1).last() == (groups@[i as int].0@, iv(groups@[i as int].1@)));
        }
        let ghost before = out@;
        push_str(out, "## ");
        let ds = to_string(&groups[i].0);
        let d = format_date(ds.as_str(), fmt);
        push_str(out, d.as_str());
        push_str(out, "\n\n");
        render_items_exec(out, &groups[i].1);
        proof {
            assert(out@ =~= before + "## "@ + spec_format_date(groups@[i as int].0@, fmt@) + "\n\n"@
                + render_items(iv(groups@[i as int].1@)));
        }
        i += 1;
    }
    proof {
        assert(gv(groups@).take(groups.len() as int) =~= gv(groups@));
    }
}

/// File `body` for capture `item_id` under `date` on a project or area page
/// (given its current text, empty for a new page). Each capture owns one
/// subsection per date; filing it again replaces that subsection; the
/// Overview is kept; the date must be `YYYY-MM-DD`.
pub fn upsert_entity_day(
    existing: &str,
    kind: &str,
    slug: &str,
    name: &str,
    scope: &str,
    date: &str,
    item_id: &str,
    body: &str,
    date_fmt: &str,
) -> (r: Result<String, String>)
    ensures
        r matches Ok(t) ==> naive_date_parse(date@, pat_iso()) is Some && t@ == spec_upsert_entity_day(
            existing@,
            kind@,
            slug@,
            name@,
            scope@,
            date@,
            item_id@,
            body@,
            date_fmt@,
        ),
        r matches Err(e) ==> naive_date_parse(date@, pat_iso()) is None && e@ == date_error(date@),
{
    match valid_date(date) {
        Ok(_) => {},
        Err(e) => return Err(e),
    }
    let kc = chars_of(kind);
    let page_kind = if eq_str(&kc, "area") {
        "area"
    } else {
        "project"
    };
    let page_slug = slugify(slug);
    let groups = parse_groups(existing, date_fmt);
    let groups = upsert_groups(groups, date, item_id, body);
    let groups = sort_groups_desc(groups);
    let overview = match extract_overview_body(existing) {
        Some(b) => b,
        None => DEFAULT_ENTITY_OVERVIEW.to_string(),
    };
    let mut out: Vec<char> = Vec::new();
    push_str(&mut out, "---\nslug: ");
    push_str(&mut out, page_slug.as_str());
    push_str(&mut out, "\nname: ");
    push_str(&mut out, name);
    push_str(&mut out, "\ntype: ");
    push_str(&mut out, page_kind);
    push_str(&mut out, "\nscope: ");
    push_str(&mut out, scope);
    push_str(&mut out, "\n---\n\n# ");
    push_str(&mut out, name);
    push_str(&mut out, "\n\n## Overview\n\n");
    let oc = chars_of(overview.as_str());
    let ot = trim_end_exec(&oc);
    push_all(&mut out, &ot);
    push_str(&mut out, "\n\n");
    proof {
        assert(out@ =~= entity_header(spec_slugify(slug@), name@, entity_kind(kind@), scope@, overview@));
    }
    render_groups_exec(&mut out, &groups, date_fmt);
    Ok(to_string(&out))
}


// ------------------------------------------------------------------ the Overview survives filing

/// Text `date_text` writes for some date in ISO form.
pub open spec fn iso_text(x: Seq<char>) -> bool {
    exists|y: i32, m: u32, d: u32| x == crate::calendar::date_text(y as int, m as int, d as int, pat_iso())
}

/// A character a rendered date is made of.
pub open spec fn date_char(c: char) -> bool {
    crate::calendar::is_digit_char(c) || c == '-' || c == '/' || c == '+'
}

/// Text made of date characters only, ending in a digit.
pub open spec fn date_like(x: Seq<char>) -> bool {
    &&& x.len() > 0
    &&& forall|i: int| 0 <= i < x.len() ==> date_char(#[trigger] x[i])
    &&& crate::calendar::is_digit_char(x.last())
}

proof fn lemma_date_text_like(y: int, m: nat, d: nat, f: Seq<char>)
    ensures
        date_like(crate::calendar::date_text(y, m as int, d as int, f)),
{
    let t = crate::calendar::date_text(y, m as int, d as int, f);
    crate::calendar::lemma_padded_digits(m, 2);
    crate::calendar::lemma_padded_digits(d, 2);
    let yt = crate::calendar::year_text(y);
    assert(date_like(yt)) by {
        if 0 <= y <= 9999 {
            crate::calendar::lemma_padded_digits(y as nat, 4);
        } else if y < 0 {
            crate::calendar::lemma_padded_digits((-y) as nat, 4);
            let p = crate::calendar::padded((-y) as nat, 4);
            assert forall|i: int| 0 <= i < yt.len() implies date_char(#[trigger] yt[i]) by {
                if i > 0 {
                    assert(yt[i] == p[i - 1]);
                }
            }
            assert(yt.last() == p.last());
        } else {
            crate::calendar::lemma_padded_digits(y as nat, 4);
            let p = crate::calendar::padded(y as nat, 4);
            assert forall|i: int| 0 <= i < yt.len() implies date_char(#[trigger] yt[i]) by {
                if i > 0 {
                    assert(yt[i] == p[i - 1]);
                }
            }
            assert(yt.last() == p.last());
        }
    }
    let mt = crate::calendar::padded(m, 2);
    let dt = crate::calendar::padded(d, 2);
    assert(forall|i: int| 0 <= i < mt.len() ==> date_char(#[trigger] mt[i]));
    assert(forall|i: int| 0 <= i < dt.len() ==> date_char(#[trigger] dt[i]));
    if f == pat_iso() {
        assert(t =~= yt + seq!['-'] + mt + seq!['-'] + dt);
        assert(t.last() == dt.last());
        assert forall|i: int| 0 <= i < t.len() implies date_char(#[trigger] t[i]) by {
            if i < yt.len() {
                assert(t[i] == yt[i]);
            } else if i == yt.len() {
            } else if i < yt.len() + 1 + mt.len() {
                assert(t[i] == mt[i - yt.len() - 1]);
            } else if i == yt.len() + 1 + mt.len() {
            } else {
                assert(t[i] == dt[i - yt.len() - 2 - mt.len()]);
            }
        }
    } else {
        let (a, b) = if f == crate::calendar::pat_mdy() {
            (mt, dt)
        } else {
            (dt, mt)
        };
        assert(t =~= a + seq!['/'] + b + seq!['/'] + yt);
        assert(t.last() == yt.last());
        assert forall|i: int| 0 <= i < t.len() implies date_char(#[trigger] t[i]) by {
            if i < a.len() {
                assert(t[i] == a[i]);
            } else if i == a.len() {
            } else if i < a.len() + 1 + b.len() {
                assert(t[i] == b[i - a.len() - 1]);
            } else if i == a.len() + 1 + b.len() {
            } else {
                assert(t[i] == yt[i - a.len() - 2 - b.len()]);
            }
        }
    }
}

/// Date-like text has no whitespace at its ends.
pub proof fn lemma_date_like_trim(x: Seq<char>)
    requires
        date_like(x),
    ensures
        trim(x) == x,
        crate::text::clean_line(x),
{
    assert(date_char(x[0]));
    assert(x.last() == x[x.len() - 1]);
    crate::text::lemma_trim_noop(x);
    assert forall|j: int| 0 <= j < x.len() implies x[j] != '\n' && x[j] != '\r' by {
        assert(date_char(x[j]));
    }
}

/// How a section date is shown is date-like, for a date the page was
/// written with or the date being filed.
pub proof fn lemma_shown_date(x: Seq<char>, date: Seq<char>, fmt: Seq<char>)
    requires
        iso_text(x) || (x == date && trim(date) == date && naive_date_parse(date, pat_iso()) is Some),
    ensures
        date_like(spec_format_date(x, fmt)),
{
    if iso_text(x) {
        let (y, m, d) = choose|y: i32, m: u32, d: u32| x == crate::calendar::date_text(y as int, m as int, d as int, pat_iso());
        lemma_date_text_like(y as int, m as nat, d as nat, pat_iso());
        lemma_date_like_trim(x);
    }
    match naive_date_parse(trim(x), pat_iso()) {
        Some(t) => lemma_date_text_like(t.0 as int, t.1 as nat, t.2 as nat, crate::datetime::display_pattern(fmt)),
        None => {},
    }
}

proof fn lemma_scan_dates(ls: Seq<Seq<char>>, fmt: Seq<char>)
    ensures
        forall|k: int| 0 <= k < entity_scan(ls, fmt).0.len() ==> iso_text(#[trigger] entity_scan(ls, fmt).0[k].0),
        entity_scan(ls, fmt).1 matches Some(d) ==> iso_text(d),
    decreases ls.len(),
{
    if ls.len() > 0 {
        lemma_scan_dates(ls.drop_last(), fmt);
        let s = entity_scan(ls.drop_last(), fmt);
        let line = ls.last();
        match heading_date(line, fmt) {
            Some(d) => {
                let t = trim(trim(line.skip(3)));
                let pats = crate::datetime::date_patterns(fmt);
                let r = crate::datetime::parse_first(t, pats)->0;
                assert(d == crate::calendar::date_text(r.0 as int, r.1 as int, r.2 as int, pat_iso()));
                assert(iso_text(d));
            },
            None => {},
        }
    }
}

proof fn lemma_groups_dates(text: Seq<char>, fmt: Seq<char>)
    ensures
        forall|k: int| 0 <= k < entity_groups(text, fmt).len() ==> iso_text(#[trigger] entity_groups(text, fmt)[k].0),
{
    lemma_scan_dates(lines(text), fmt);
}

proof fn lemma_sort_desc_from(gs: Seq<Group>)
    ensures
        sort_desc(gs).len() == gs.len(),
        forall|i: int| 0 <= i < sort_desc(gs).len() ==> exists|j: int| 0 <= j < gs.len() && #[trigger] sort_desc(gs)[i] == gs[j],
    decreases gs.len(),
{
    if gs.len() > 0 {
        lemma_sort_desc_from(gs.drop_last());
        let s0 = sort_desc(gs.drop_last());
        let p = insert_pos(s0, gs.last().0);
        lemma_insert_pos_bounds(s0, gs.last().0);
        assert forall|i: int| 0 <= i < sort_desc(gs).len() implies exists|j: int| 0 <= j < gs.len() && #[trigger] sort_desc(gs)[i] == gs[j] by {
            if i < p {
                assert(sort_desc(gs)[i] == s0[i]);
                let j = choose|j: int| 0 <= j < gs.drop_last().len() && s0[i] == gs.drop_last()[j];
                assert(gs.drop_last()[j] == gs[j]);
            } else if i == p {
                assert(sort_desc(gs)[i] == gs[gs.len() - 1]);
            } else {
                assert(sort_desc(gs)[i] == s0[i - 1]);
                let j = choose|j: int| 0 <= j < gs.drop_last().len() && s0[i - 1] == gs.drop_last()[j];
                assert(gs.drop_last()[j] == gs[j]);
            }
        }
    }
}

proof fn lemma_insert_pos_bounds(s: Seq<Group>, d: Seq<char>)
    ensures
        0 <= insert_pos(s, d) <= s.len(),
    decreases s.len(),
{
    if s.len() > 0 && !(crate::order::text_order(s[0].0, d) < 0) {
        lemma_insert_pos_bounds(s.drop_first(), d);
    }
}

/// A non-empty log's lines begin with the heading of its first section.
proof fn lemma_log_first_line(gs: Seq<Group>, fmt: Seq<char>)
    requires
        gs.len() > 0,
        date_like(spec_format_date(gs[0].0, fmt)),
    ensures
        lines(render_groups(gs, fmt)).len() > 0,
        lines(render_groups(gs, fmt))[0] == "## "@ + spec_format_date(gs[0].0, fmt),
{
    reveal_strlit("## ");
    reveal_strlit("\n\n");
    let x = spec_format_date(gs[0].0, fmt);
    let head = "## "@ + x;
    let k = head.len() as int;
    lemma_log_prefix(gs, fmt);
    let r = render_groups(gs, fmt);
    assert(r.take(k + 1) =~= head + seq!['\n']);
    assert forall|j: int| 0 <= j < k implies r[j] != '\n' by {
        assert(r[j] == r.take(k + 1)[j]);
        if j >= 3 {
            assert(date_char(x[j - 3]));
        }
    }
    assert(r[k] == r.take(k + 1)[k]);
    crate::text::lemma_first_nl_at(r, k);
    assert(r.take(k) =~= head);
    assert(head.last() == x.last());
    assert(crate::text::strip_cr(head) == head);
}

proof fn lemma_log_prefix(gs: Seq<Group>, fmt: Seq<char>)
    requires
        gs.len() > 0,
    ensures
        render_groups(gs, fmt).len() >= ("## "@ + spec_format_date(gs[0].0, fmt) + "\n\n"@).len(),
        render_groups(gs, fmt).take(("## "@ + spec_format_date(gs[0].0, fmt) + "\n\n"@).len() as int)
            == "## "@ + spec_format_date(gs[0].0, fmt) + "\n\n"@,
    decreases gs.len(),
{
    let pre = "## "@ + spec_format_date(gs[0].0, fmt) + "\n\n"@;
    let r = render_groups(gs, fmt);
    if gs.len() == 1 {
        assert(gs.drop_last() =~= Seq::<Group>::empty());
        assert(render_groups(gs.drop_last(), fmt) == Seq::<char>::empty());
        assert(r =~= pre + render_items(gs.last().1));
        assert(r.take(pre.len() as int) =~= pre);
    } else {
        lemma_log_prefix(gs.drop_last(), fmt);
        assert(gs.drop_last()[0] == gs[0]);
        let a = render_groups(gs.drop_last(), fmt);
        assert(r =~= a + ("## "@ + spec_format_date(gs.last().0, fmt) + "\n\n"@ + render_items(gs.last().1)));
        assert(r.take(pre.len() as int) =~= a.take(pre.len() as int));
    }
}

/// Joining clean lines writes no carriage return.
proof fn lemma_join_no_cr(ls: Seq<Seq<char>>)
    requires
        forall|k: int| 0 <= k < ls.len() ==> crate::text::clean_line(#[trigger] ls[k]),
    ensures
        crate::text::no_cr(crate::text::join(ls, "\n"@)),
    decreases ls.len(),
{
    reveal_strlit("\n");
    if ls.len() == 1 {
        assert(crate::text::clean_line(ls[0]));
    } else if ls.len() > 1 {
        lemma_join_no_cr(ls.drop_last());
        assert(crate::text::clean_line(ls.last()));
        let a = crate::text::join(ls.drop_last(), "\n"@);
        let j = a + "\n"@ + ls.last();
        assert forall|i: int| 0 <= i < j.len() implies j[i] != '\r' by {
            if i < a.len() {
                assert(j[i] == a[i]);
            } else if i > a.len() {
                assert(j[i] == ls.last()[i - a.len() - 1]);
            }
        }
    }
}

/// What the Overview of a page reads as, when it has one: a trimmed body
/// without carriage returns.
pub proof fn lemma_extracted_clean(content: Seq<char>)
    requires
        crate::text::no_cr(content),
        spec_extract_overview_body(content) is Some,
    ensures
        ({
            let o = spec_extract_overview_body(content)->0;
            &&& o.len() > 0
            &&& o.last() != '\n'
            &&& crate::text::no_cr(o)
            &&& trim(o) == o
            &&& !crate::text::is_ws(o[0])
            &&& !crate::text::is_ws(o.last())
        }),
{
    let ls = lines(content);
    crate::text::lemma_lines_clean(content);
    let (st, en) = crate::overview::overview_scan(ls, 0, None, 1);
    crate::overview::lemma_overview_scan_bounds(ls, 0, None, 1);
    let sub = ls.subrange(st->0, en);
    assert forall|k: int| 0 <= k < sub.len() implies crate::text::clean_line(#[trigger] sub[k]) by {
        assert(sub[k] == ls[k + st->0]);
    }
    lemma_join_no_cr(sub);
    crate::overview::lemma_trim_keeps_no_cr(crate::text::join(sub, "\n"@));
    crate::overview::lemma_body_prepared(crate::text::join(sub, "\n"@));
}

/// The frontmatter and title lines of a page.
pub open spec fn header_lines(slug: Seq<char>, name: Seq<char>, kind: Seq<char>, scope: Seq<char>) -> Seq<Seq<char>> {
    seq![
        "---"@,
        "slug: "@ + slug,
        "name: "@ + name,
        "type: "@ + kind,
        "scope: "@ + scope,
        "---"@,
        Seq::<char>::empty(),
        "# "@ + name,
        Seq::<char>::empty()
    ]
}

proof fn lemma_header_lines_ok(slug: Seq<char>, name: Seq<char>, kind: Seq<char>, scope: Seq<char>)
    requires
        crate::text::clean_line(slug),
        crate::text::clean_line(name),
        crate::text::clean_line(scope),
        kind == "area"@ || kind == "project"@,
    ensures
        forall|k: int|
            0 <= k < header_lines(slug, name, kind, scope).len() ==> crate::text::clean_line(
                #[trigger] header_lines(slug, name, kind, scope)[k],
            ) && trim(header_lines(slug, name, kind, scope)[k]) != crate::overview::overview_heading(),
{
    reveal_strlit("---");
    reveal_strlit("slug: ");
    reveal_strlit("name: ");
    reveal_strlit("type: ");
    reveal_strlit("scope: ");
    reveal_strlit("# ");
    reveal_strlit("## Overview");
    reveal_strlit("area");
    reveal_strlit("project");
    let h = header_lines(slug, name, kind, scope);
    assert forall|k: int| 0 <= k < h.len() implies crate::text::clean_line(#[trigger] h[k]) && trim(h[k]) != crate::overview::overview_heading() by {
        let l = h[k];
        if l.len() > 0 {
            assert(!crate::text::is_ws(l[0]));
            crate::text::lemma_trim_start_edges(l);
            assert(crate::text::trim_start(l) == l);
            crate::text::lemma_trim_end_edges(l);
            let t = trim(l);
            if t.len() > 0 {
                assert(t[0] == l[0]);
            }
            if k == 7 && t.len() >= 2 {
                assert(t[1] == l[1]);
            }
        } else {
            assert(trim(l) =~= l);
        }
        assert forall|j: int| 0 <= j < l.len() implies l[j] != '\n' && l[j] != '\r' by {
            if k == 1 && j >= 6 {
                assert(l[j] == slug[j - 6]);
            } else if k == 2 && j >= 6 {
                assert(l[j] == name[j - 6]);
            } else if k == 3 && j >= 6 {
                assert(l[j] == kind[j - 6]);
            } else if k == 4 && j >= 7 {
                assert(l[j] == scope[j - 7]);
            } else if k == 7 && j >= 2 {
                assert(l[j] == name[j - 2]);
            }
        }
    }
}

#[verifier::rlimit(100)]
proof fn lemma_header_text(slug: Seq<char>, name: Seq<char>, kind: Seq<char>, scope: Seq<char>, overview: Seq<char>)
    requires
        crate::text::trim_end(overview) == overview,
    ensures
        entity_header(slug, name, kind, scope, overview) == crate::text::lines_nl(header_lines(slug, name, kind, scope))
            + crate::overview::overview_section(overview),
{
    reveal_strlit("---");
    reveal_strlit("slug: ");
    reveal_strlit("name: ");
    reveal_strlit("type: ");
    reveal_strlit("scope: ");
    reveal_strlit("# ");
    reveal_strlit("---\nslug: ");
    reveal_strlit("\nname: ");
    reveal_strlit("\ntype: ");
    reveal_strlit("\nscope: ");
    reveal_strlit("\n---\n\n# ");
    reveal_strlit("\n\n## Overview\n\n");
    reveal_strlit("\n\n");
    reveal_strlit("## Overview\n\n");
    let h = header_lines(slug, name, kind, scope);
    assert(crate::text::lines_nl(h) =~= "---\nslug: "@ + slug + "\nname: "@ + name + "\ntype: "@ + kind + "\nscope: "@ + scope
        + "\n---\n\n# "@ + name + "\n\n"@) by {
        reveal_with_fuel(crate::text::lines_nl, 10);
    }
}

proof fn lemma_header(slug: Seq<char>, name: Seq<char>, kind: Seq<char>, scope: Seq<char>, overview: Seq<char>)
    requires
        crate::text::clean_line(slug),
        crate::text::clean_line(name),
        crate::text::clean_line(scope),
        kind == "area"@ || kind == "project"@,
        crate::text::trim_end(overview) == overview,
    ensures
        entity_header(slug, name, kind, scope, overview) == crate::text::lines_nl(header_lines(slug, name, kind, scope))
            + crate::overview::overview_section(overview),
        lines(crate::text::lines_nl(header_lines(slug, name, kind, scope))) == header_lines(slug, name, kind, scope),
        crate::text::lines_nl(header_lines(slug, name, kind, scope)).last() == '\n',
        crate::overview::runs_through(header_lines(slug, name, kind, scope), false),
{
    let h = header_lines(slug, name, kind, scope);
    lemma_header_lines_ok(slug, name, kind, scope);
    crate::overview::lemma_runs_through_no_heading(h);
    crate::text::lemma_lines_nl_roundtrip(h);
    crate::text::lemma_lines_nl_ends(h);
    lemma_header_text(slug, name, kind, scope, overview);
}

/// The dated log's first line, when it has one, is a `## ` date heading
/// that is no Overview heading.
proof fn lemma_log_starts_dated(existing: Seq<char>, date: Seq<char>, item_id: Seq<char>, body: Seq<char>, fmt: Seq<char>)
    requires
        trim(date) == date,
        naive_date_parse(date, pat_iso()) is Some,
    ensures
        ({
            let q = lines(render_groups(sort_desc(upsert_group(entity_groups(existing, fmt), date, item_id, body)), fmt));
            q.len() > 0 ==> starts_with(q[0], "## "@) && trim(q[0]) != crate::overview::overview_heading()
        }),
{
    reveal_strlit("## ");
    reveal_strlit("## Overview");
    let eg = entity_groups(existing, fmt);
    let us = upsert_group(eg, date, item_id, body);
    let gs = sort_desc(us);
    lemma_sort_desc_from(us);
    if gs.len() > 0 {
        lemma_groups_dates(existing, fmt);
        let j = choose|j: int| 0 <= j < us.len() && #[trigger] gs[0] == us[j];
        lemma_first_group_props(eg, date);
        match first_group(eg, date) {
            Some(k) => {
                if j != k {
                    assert(us[j] == eg[j]);
                }
            },
            None => {
                if j < eg.len() {
                    assert(us[j] == eg[j]);
                }
            },
        }
        lemma_shown_date(gs[0].0, date, fmt);
        lemma_log_first_line(gs, fmt);
        let x = spec_format_date(gs[0].0, fmt);
        lemma_date_like_trim(x);
        let l0 = "## "@ + x;
        assert(l0[0] == '#' && l0.last() == x.last());
        crate::text::lemma_trim_noop(l0);
        assert(starts_with(l0, "## "@)) by {
            assert(l0.take(3) =~= "## "@);
        }
        assert(trim(l0) != crate::overview::overview_heading()) by {
            if trim(l0) == crate::overview::overview_heading() {
                assert(l0[3] == x[0]);
                assert(date_char(x[0]));
                assert("## Overview"@[3] == 'O');
            }
        }
    }
}

/// Filing a capture on a page keeps the page's Overview as it was: the
/// Overview read back from the filed page is the one read from the page
/// before. It holds for pages without carriage returns whose Overview has
/// no line the reader would take for the end of the section once trimmed,
/// when the filed date is a plain `YYYY-MM-DD` date and the slug, name and
/// scope written into the frontmatter are single lines.
pub proof fn law_filing_keeps_the_overview(
    existing: Seq<char>,
    kind: Seq<char>,
    slug: Seq<char>,
    name: Seq<char>,
    scope: Seq<char>,
    date: Seq<char>,
    item_id: Seq<char>,
    body: Seq<char>,
    fmt: Seq<char>,
)
    requires
        crate::text::no_cr(existing),
        spec_extract_overview_body(existing) is Some,
        forall|k: int|
            0 <= k < lines(spec_extract_overview_body(existing)->0).len() ==> crate::overview::plain_line(
                #[trigger] lines(spec_extract_overview_body(existing)->0)[k],
            ),
        crate::text::clean_line(spec_slugify(slug)),
        crate::text::clean_line(name),
        crate::text::clean_line(scope),
        trim(date) == date,
        naive_date_parse(date, pat_iso()) is Some,
    ensures
        spec_extract_overview_body(spec_upsert_entity_day(existing, kind, slug, name, scope, date, item_id, body, fmt))
            == spec_extract_overview_body(existing),
{
    reveal_strlit("area");
    reveal_strlit("project");
    let o = spec_extract_overview_body(existing)->0;
    lemma_extracted_clean(existing);
    crate::overview::lemma_section_scannable(o);
    let sl = spec_slugify(slug);
    let kd = entity_kind(kind);
    assert(crate::text::trim_end(o) == o) by {
        crate::text::lemma_trim_idempotent(o);
    }
    lemma_header(sl, name, kd, scope, o);
    let h = header_lines(sl, name, kd, scope);
    let gs = sort_desc(upsert_group(entity_groups(existing, fmt), date, item_id, body));
    let log = render_groups(gs, fmt);
    lemma_log_starts_dated(existing, date, item_id, body, fmt);
    let hn = crate::text::lines_nl(h);
    let sec = crate::overview::overview_section(o);
    let page = spec_upsert_entity_day(existing, kind, slug, name, scope, date, item_id, body, fmt);
    assert(page == entity_header(sl, name, kd, scope, o) + log);
    assert(page =~= hn + sec + log);
    crate::text::lemma_lines_concat(hn, sec + log);
    crate::text::lemma_lines_concat(sec, log);
    assert(hn + sec + log =~= hn + (sec + log));
    assert(lines(page) =~= h + lines(sec) + lines(log));
    crate::overview::lemma_extract_written(h, lines(log), o);
}

// ------------------------------------------------------------------ sections stay newest first

/// Dated sections in descending date order.
pub open spec fn newest_first(gs: Seq<Group>) -> bool {
    forall|i: int, j: int| 0 <= i < j < gs.len() ==> text_order(#[trigger] gs[i].0, #[trigger] gs[j].0) >= 0
}

proof fn lemma_insert_pos_props(s: Seq<Group>, d: Seq<char>)
    ensures
        0 <= insert_pos(s, d) <= s.len(),
        forall|k: int| 0 <= k < insert_pos(s, d) ==> text_order(#[trigger] s[k].0, d) >= 0,
        insert_pos(s, d) < s.len() ==> text_order(s[insert_pos(s, d)].0, d) < 0,
    decreases s.len(),
{
    if s.len() > 0 && !(text_order(s[0].0, d) < 0) {
        lemma_insert_pos_props(s.drop_first(), d);
        assert forall|k: int| 0 <= k < insert_pos(s, d) implies text_order(#[trigger] s[k].0, d) >= 0 by {
            if k > 0 {
                assert(s[k] == s.drop_first()[k - 1]);
            }
        }
        if insert_pos(s, d) < s.len() {
            assert(s[insert_pos(s, d)] == s.drop_first()[insert_pos(s.drop_first(), d)]);
        }
    }
}

/// Sorting puts a page's sections newest first.
pub proof fn lemma_sort_desc_newest_first(gs: Seq<Group>)
    ensures
        newest_first(sort_desc(gs)),
        sort_desc(gs).len() == gs.len(),
    decreases gs.len(),
{
    if gs.len() > 0 {
        let s = sort_desc(gs.drop_last());
        lemma_sort_desc_newest_first(gs.drop_last());
        let x = gs.last();
        let d = x.0;
        let p = insert_pos(s, d);
        lemma_insert_pos_props(s, d);
        let r = s.insert(p, x);
        assert(sort_desc(gs) == r);
        assert forall|i: int, j: int| 0 <= i < j < r.len() implies text_order(#[trigger] r[i].0, #[trigger] r[j].0) >= 0 by {
            if j < p {
                assert(r[i] == s[i] && r[j] == s[j]);
            } else if j == p {
                assert(r[i] == s[i] && r[j] == x);
            } else if i < p {
                assert(r[i] == s[i] && r[j] == s[j - 1]);
            } else if i == p {
                assert(r[i] == x && r[j] == s[j - 1]);
                let a = s[p].0;
                let b = s[j - 1].0;
                crate::order::lemma_text_order(a, d);
                crate::order::lemma_text_order(a, b);
                crate::order::lemma_text_order(b, d);
                crate::order::lemma_text_order(d, b);
                if p < j - 1 {
                    assert(text_order(s[p].0, s[j - 1].0) >= 0);
                }
                crate::order::lemma_text_order_trans(b, a, d);
            } else {
                assert(r[i] == s[i - 1] && r[j] == s[j - 1]);
            }
        }
    }
}

/// A project or area page keeps its dated sections newest first: the
/// sections a filing writes back are in descending date order, whatever
/// order the page held them in.
pub proof fn law_sections_stay_newest_first(
    existing: Seq<char>,
    date: Seq<char>,
    item_id: Seq<char>,
    body: Seq<char>,
    fmt: Seq<char>,
)
    ensures
        newest_first(sort_desc(upsert_group(entity_groups(existing, fmt), date, item_id, body))),
{
    lemma_sort_desc_newest_first(upsert_group(entity_groups(existing, fmt), date, item_id, body));
}

} // verus!
