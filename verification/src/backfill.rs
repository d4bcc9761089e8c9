//! Recover the item index from markdown written before it existed. Entity
//! pages carry ``### `item_id` `` markers and `**Accomplished**` /
//! `**Decided**` / `**Open**` blocks, task and idea lines carry their entry
//! ids, so the rendered markdown can be parsed back instead of re-triaging
//! every capture. Recovered records are tagged `recovered`, so a rebuild
//! redoes them without disturbing a record written at capture time.
use crate::attachments::{after_last, after_last_exec};
use crate::triage::{labelled_block, spec_bullets, spec_render_entity_section};
use crate::datetime::{parse_date_to_iso, spec_parse_date_to_iso};
use crate::entity::{heading_date, heading_date_exec, item_heading};
use crate::entries::{marker_id, spec_marker_id, EntryRecord, SOURCE_RECOVERED};
use crate::names::{before_char, before_char_exec};
use crate::personal::{trim_char, trim_char_exec};
use crate::text::{
    chars_of, contains, contains_str, copy, decimal, decimal_exec, ends_with, ends_with_str, eq,
    eq_str, find, find_exec, find_str, is_blank, lines, lines_of, push_all, push_str, slice_of, split_once,
    split_once_str, starts_with, starts_with_str, sv, take_chars, take_chars_exec, to_string, trim,
    trim_exec, trim_start, vv, first_nl, occurs_at,
};
use vstd::prelude::*;

verus! {

/// What a rebuild did.
#[derive(Clone, Debug)]
pub struct RebuildReport {
    /// Records recovered from markdown this run.
    pub recovered: usize,
    /// Capture-time records left untouched.
    pub kept: usize,
    /// Legacy task lines given an id marker so their checkbox can be tracked.
    pub tasks_marked: usize,
}

/// An entity section's structure, read back.
pub struct ParsedSection {
    pub title: String,
    pub accomplished: Vec<String>,
    pub decisions: Vec<String>,
    pub open: Vec<String>,
    pub rest: String,
}

/// A task line's fields, read back.
pub struct ParsedTask {
    pub item_id: String,
    pub scope: String,
    pub text: String,
    pub date: String,
    pub due: Option<String>,
    pub slug: String,
}

// ------------------------------------------------------------------ specs

/// The text of the first `# ` line.
pub open spec fn spec_page_title(ls: Seq<Seq<char>>) -> Option<Seq<char>>
    decreases ls.len(),
{
    if ls.len() == 0 {
        None
    } else if starts_with(ls[0], "# "@) {
        Some(trim(ls[0].skip(2)))
    } else {
        spec_page_title(ls.drop_first())
    }
}

/// Section reading state: block (0 prose, 1 accomplished, 2 decided,
/// 3 open), title, the three lists, and the prose so far.
pub type SecScan = (int, Seq<char>, Seq<Seq<char>>, Seq<Seq<char>>, Seq<Seq<char>>, Seq<char>);

/// `s` is `**…**` around something.
pub open spec fn bold_inner(t: Seq<char>) -> Option<Seq<char>> {
    if t.len() >= 4 && starts_with(t, "**"@) && ends_with(t, "**"@) {
        Some(t.subrange(2, t.len() - 2))
    } else {
        None
    }
}

pub open spec fn section_step(s: SecScan, line: Seq<char>) -> SecScan {
    let (mode, title, acc, dec, open, rest) = s;
    let t = trim(line);
    if t == "**Accomplished**"@ {
        (1, title, acc, dec, open, rest)
    } else if t == "**Decided**"@ {
        (2, title, acc, dec, open, rest)
    } else if t == "**Open**"@ {
        (3, title, acc, dec, open, rest)
    } else if t.len() == 0 {
        if mode == 0 {
            (mode, title, acc, dec, open, rest.push('\n'))
        } else {
            s
        }
    } else if starts_with(t, "- "@) && mode == 1 {
        (mode, title, acc.push(trim(t.skip(2))), dec, open, rest)
    } else if starts_with(t, "- "@) && mode == 2 {
        (mode, title, acc, dec.push(trim(t.skip(2))), open, rest)
    } else if starts_with(t, "- "@) && mode == 3 {
        (mode, title, acc, dec, open.push(trim(t.skip(2))), rest)
    } else {
        let m = if starts_with(t, "- "@) {
            mode
        } else {
            0
        };
        if starts_with(t, "[[days/"@) {
            (m, title, acc, dec, open, rest)
        } else if title.len() == 0 && trim(rest).len() == 0 && bold_inner(t) is Some {
            (m, trim(bold_inner(t)->0), acc, dec, open, rest)
        } else {
            (m, title, acc, dec, open, rest + line + "\n"@)
        }
    }
}

pub open spec fn section_scan(ls: Seq<Seq<char>>) -> SecScan
    decreases ls.len(),
{
    if ls.len() == 0 {
        (0, seq![], seq![], seq![], seq![], seq![])
    } else {
        section_step(section_scan(ls.drop_last()), ls.last())
    }
}

/// A rendered section read back: title, accomplished, decided, open, and
/// the remaining prose. Without a bold title the prose's first line (80
/// characters at most) stands in.
pub open spec fn spec_parse_section_body(body: Seq<char>) -> (Seq<char>, Seq<Seq<char>>, Seq<Seq<char>>, Seq<Seq<char>>, Seq<char>) {
    let s = section_scan(lines(body));
    let rest = trim(s.5);
    let title = if s.1.len() == 0 {
        take_chars(
            if lines(rest).len() > 0 {
                lines(rest)[0]
            } else {
                seq![]
            },
            80,
        )
    } else {
        s.1
    };
    (title, s.2, s.3, s.4, rest)
}

/// The slug of the first `[[…]]` in `s`: its target before any `|`, after
/// the last `/`, trimmed.
pub open spec fn spec_wikilink_slug(s: Seq<char>) -> Option<Seq<char>> {
    match find(s, "[["@) {
        Some(i) => {
            let rest = s.skip(i + 2);
            match find(rest, "]]"@) {
                Some(e) => {
                    let target = trim(before_char(rest.take(e), '|'));
                    let slug = trim(after_last(target, '/'));
                    if slug.len() == 0 {
                        None
                    } else {
                        Some(slug)
                    }
                },
                None => None,
            }
        },
        None => None,
    }
}

/// `s` without a trailing ` · [[…]]` link (cut at the first ` · [[`).
pub open spec fn spec_strip_trailing_link(s: Seq<char>) -> Seq<char> {
    match find(s, " · [["@) {
        Some(i) => s.take(i),
        None => s,
    }
}


/// A record as a value.
pub struct RecordModel {
    pub id: Seq<char>,
    pub item_id: Seq<char>,
    pub date: Seq<char>,
    pub time: Seq<char>,
    pub scope: Seq<char>,
    pub kind: Seq<char>,
    pub slug: Seq<char>,
    pub name: Seq<char>,
    pub title: Seq<char>,
    pub body: Seq<char>,
    pub accomplished: Seq<Seq<char>>,
    pub decisions: Seq<Seq<char>>,
    pub open: Seq<Seq<char>>,
    pub due: Option<Seq<char>>,
    pub source: Seq<char>,
}

pub open spec fn rm(r: EntryRecord) -> RecordModel {
    RecordModel {
        id: r.id@,
        item_id: r.item_id@,
        date: r.date@,
        time: r.time@,
        scope: r.scope@,
        kind: r.kind@,
        slug: r.slug@,
        name: r.name@,
        title: r.title@,
        body: r.body@,
        accomplished: sv(r.accomplished@),
        decisions: sv(r.decisions@),
        open: sv(r.open@),
        due: match r.due {
            Some(d) => Some(d@),
            None => None,
        },
        source: r.source@,
    }
}

pub open spec fn rms(s: Seq<EntryRecord>) -> Seq<RecordModel> {
    s.map_values(|r: EntryRecord| rm(r))
}

/// A recovered record with the given fields (personal scope when none).
pub open spec fn recovered(
    id: Seq<char>,
    item_id: Seq<char>,
    date: Seq<char>,
    time: Seq<char>,
    scope: Seq<char>,
    kind: Seq<char>,
    slug: Seq<char>,
    name: Seq<char>,
    title: Seq<char>,
    body: Seq<char>,
    parts: (Seq<Seq<char>>, Seq<Seq<char>>, Seq<Seq<char>>),
    due: Option<Seq<char>>,
) -> RecordModel {
    RecordModel {
        id,
        item_id,
        date,
        time,
        scope: if scope.len() == 0 {
            "personal"@
        } else {
            scope
        },
        kind,
        slug,
        name,
        title,
        body,
        accomplished: parts.0,
        decisions: parts.1,
        open: parts.2,
        due,
        source: SOURCE_RECOVERED@,
    }
}

/// Entity page reading state: records so far, current date, current
/// capture, its body so far, and how many records were made.
pub type PageScan = (Seq<RecordModel>, Option<Seq<char>>, Option<Seq<char>>, Seq<char>, nat);

/// The page's identity: kind, slug, name, scope.
pub type PageWho = (Seq<char>, Seq<char>, Seq<char>, Seq<char>);

/// Close the current section: a capture that is neither legacy text nor
/// covered by real records becomes a record.
pub open spec fn page_flush(s: PageScan, who: PageWho, covered: Seq<Seq<char>>) -> PageScan {
    let (out, date, item, body, n) = s;
    match (date, item) {
        (Some(d), Some(id)) => if id == "_legacy"@ || covered.contains(id) {
            (out, date, None, seq![], n)
        } else {
            let p = spec_parse_section_body(body);
            (
                out.push(
                    recovered(
                        id + "-r"@ + decimal(n),
                        id,
                        d,
                        seq![],
                        who.3,
                        who.0,
                        who.1,
                        who.2,
                        p.0,
                        p.4,
                        (p.1, p.2, p.3),
                        None,
                    ),
                ),
                date,
                None,
                seq![],
                n + 1,
            )
        },
        _ => (out, date, None, seq![], n),
    }
}

pub open spec fn page_step(s: PageScan, line: Seq<char>, fmt: Seq<char>, who: PageWho, covered: Seq<Seq<char>>) -> PageScan {
    if starts_with(line, "## "@) {
        let f = page_flush(s, who, covered);
        (f.0, spec_parse_date_to_iso(trim(line.skip(3)), fmt), None, seq![], f.4)
    } else if s.1 is None {
        s
    } else {
        match item_heading(line) {
            Some(id) => {
                let f = page_flush(s, who, covered);
                (f.0, f.1, Some(id), seq![], f.4)
            },
            None => (s.0, s.1, s.2, s.3 + line + "\n"@, s.4),
        }
    }
}

pub open spec fn page_scan(ls: Seq<Seq<char>>, fmt: Seq<char>, who: PageWho, covered: Seq<Seq<char>>) -> PageScan
    decreases ls.len(),
{
    if ls.len() == 0 {
        (seq![], None, None, seq![], 0)
    } else {
        page_step(page_scan(ls.drop_last(), fmt, who, covered), ls.last(), fmt, who, covered)
    }
}

/// The records an entity page yields.
pub open spec fn spec_parse_entity_page(text: Seq<char>, fmt: Seq<char>, who: PageWho, covered: Seq<Seq<char>>) -> Seq<RecordModel> {
    page_flush(page_scan(lines(text), fmt, who, covered), who, covered).0
}

/// `str::split(c)`.
pub open spec fn split_char(s: Seq<char>, c: char) -> Seq<Seq<char>>
    decreases s.len(),
{
    match find(s, seq![c]) {
        Some(i) => {
            proof {
                crate::text::lemma_find_props(s, seq![c]);
            }
            if i + 1 <= s.len() {
                seq![s.take(i)] + split_char(s.skip(i + 1), c)
            } else {
                seq![s]
            }
        },
        None => seq![s],
    }
}

/// The due date the parts after the capture date name, the last `due`
/// part deciding.
pub open spec fn due_of(parts: Seq<Seq<char>>, fmt: Seq<char>) -> Option<Seq<char>>
    decreases parts.len(),
{
    if parts.len() == 0 {
        None
    } else {
        let p = trim(parts.last());
        if starts_with(p, "due "@) {
            spec_parse_date_to_iso(trim(p.skip(4)), fmt)
        } else {
            due_of(parts.drop_last(), fmt)
        }
    }
}

pub open spec fn strip_box(s: Seq<char>) -> Seq<char> {
    crate::names::trim_start_all(
        crate::names::trim_start_all(crate::names::trim_start_all(s, "- [ ]"@), "- [x]"@),
        "- [X]"@,
    )
}

/// A task line read back: capture id, scope, text, date, due date, slug.
pub open spec fn spec_parse_task_line(line: Seq<char>, fmt: Seq<char>, today: Seq<char>) -> (
    Seq<char>,
    Seq<char>,
    Seq<char>,
    Seq<char>,
    Option<Seq<char>>,
    Seq<char>,
) {
    let body = trim(strip_box(line));
    let scoped = match find(body, ")"@) {
        Some(close) => if starts_with(body, "("@) {
            Some((trim(body.subrange(1, close)), trim(body.skip(close + 1))))
        } else {
            None
        },
        None => None,
    };
    let scope = match scoped {
        Some(p) => p.0,
        None => seq![],
    };
    let rest = match scoped {
        Some(p) => p.1,
        None => body,
    };
    let slug = match spec_wikilink_slug(rest) {
        Some(s) => s,
        None => seq![],
    };
    let (text0, tail) = match split_once(rest, " — captured "@) {
        Some(p) => p,
        None => (rest, seq![]),
    };
    let parts = split_char(tail, '·');
    let date0 = match spec_parse_date_to_iso(trim(parts[0]), fmt) {
        Some(d) => d,
        None => seq![],
    };
    let date = if date0.len() == 0 {
        today
    } else {
        date0
    };
    (
        "recovered-tasks-"@ + date,
        scope,
        trim(spec_strip_trailing_link(text0)),
        date,
        due_of(parts.skip(1), fmt),
        slug,
    )
}

pub open spec fn task_candidate(n: nat) -> Seq<char> {
    "recovered-task-"@ + decimal(n)
}

/// The first candidate number from `n` whose id is not taken.
pub open spec fn fresh_task_number(used: Seq<Seq<char>>, n: nat, fuel: nat) -> nat
    decreases fuel,
{
    if fuel == 0 || !used.contains(task_candidate(n)) {
        n
    } else {
        fresh_task_number(used, n + 1, (fuel - 1) as nat)
    }
}

pub open spec fn is_task_line(t: Seq<char>) -> bool {
    starts_with(t, "- [ ]"@) || starts_with(t, "- [x]"@) || starts_with(t, "- [X]"@)
}

/// Task recovery state: records, lines written back, ids used, next
/// candidate number, lines marked.
pub type TaskScan = (Seq<RecordModel>, Seq<Seq<char>>, Seq<Seq<char>>, nat, nat);

pub open spec fn task_step(s: TaskScan, line: Seq<char>, fmt: Seq<char>, kept_ids: Seq<Seq<char>>, today: Seq<char>) -> TaskScan {
    let (out, ls, used, n, marked) = s;
    let t = trim_start(line);
    if !is_task_line(t) {
        (out, ls.push(line), used, n, marked)
    } else if spec_marker_id(t) is Some && kept_ids.contains(spec_marker_id(t)->0) {
        (out, ls.push(line), used, n, marked)
    } else {
        let k = fresh_task_number(used, n, used.len() + 1);
        let (id, n2) = match spec_marker_id(t) {
            Some(e) => (e, n),
            None => (task_candidate(k), k + 1),
        };
        let p = spec_parse_task_line(t, fmt, today);
        let rec = recovered(id, p.0, p.3, seq![], p.1, "task"@, p.5, seq![], p.2, seq![], (seq![], seq![], seq![]), p.4);
        if contains(t, "<!-- e:"@) {
            (out.push(rec), ls.push(line), used.push(id), n2, marked)
        } else {
            let rebuilt = crate::tasks::replace_first(t, "] "@, "] <!-- e:"@ + id + " --> "@);
            (out.push(rec), ls.push(line.take(line.len() - t.len()) + rebuilt), used.push(id), n2, marked + 1)
        }
    }
}

pub open spec fn task_scan(ls: Seq<Seq<char>>, fmt: Seq<char>, kept_ids: Seq<Seq<char>>, today: Seq<char>) -> TaskScan
    decreases ls.len(),
{
    if ls.len() == 0 {
        (seq![], seq![], seq![], 0, 0)
    } else {
        task_step(task_scan(ls.drop_last(), fmt, kept_ids, today), ls.last(), fmt, kept_ids, today)
    }
}

/// The new text of `tasks.md` when lines were marked.
pub open spec fn marked_text(ls: Seq<Seq<char>>) -> Seq<char> {
    let j = crate::text::join(ls, "\n"@);
    if crate::text::ends_with(j, "\n"@) {
        j
    } else {
        j.push('\n')
    }
}

/// Idea recovery state: records so far, current date.
pub type IdeaScan = (Seq<RecordModel>, Option<Seq<char>>);

/// An idea bullet's fields: time, scope, slug, text.
pub open spec fn idea_fields(t: Seq<char>) -> (Seq<char>, Seq<char>, Seq<char>, Seq<char>) {
    let b0 = trim(t.skip(2));
    let timed = if starts_with(b0, "**"@) {
        match split_once(b0.skip(2), "**"@) {
            Some(p) => Some((trim(p.0), trim(p.1))),
            None => None,
        }
    } else {
        None
    };
    let time = match timed {
        Some(p) => p.0,
        None => seq![],
    };
    let b1 = match timed {
        Some(p) => p.1,
        None => b0,
    };
    let b2 = match find(b1, "-->"@) {
        Some(after) => if starts_with(b1, "<!--"@) {
            trim(b1.skip(after + 3))
        } else {
            b1
        },
        None => b1,
    };
    let scoped = if starts_with(b2, "("@) {
        match find(b2, ")"@) {
            Some(close) => Some((trim(b2.subrange(1, close)), trim(b2.skip(close + 1)))),
            None => None,
        }
    } else {
        None
    };
    let scope = match scoped {
        Some(p) => p.0,
        None => seq![],
    };
    let b3 = match scoped {
        Some(p) => p.1,
        None => b2,
    };
    let slug = match spec_wikilink_slug(b3) {
        Some(s) => s,
        None => seq![],
    };
    (time, scope, slug, trim(spec_strip_trailing_link(b3)))
}

pub open spec fn idea_step(s: IdeaScan, line: Seq<char>, fmt: Seq<char>, covered: Seq<Seq<char>>) -> IdeaScan {
    let (out, cur) = s;
    if starts_with(line, "## "@) {
        (out, spec_parse_date_to_iso(trim(line.skip(3)), fmt))
    } else {
        match cur {
            None => s,
            Some(date) => {
                let t = trim(line);
                if !starts_with(t, "- "@) {
                    s
                } else if spec_marker_id(t) is Some && covered.contains(spec_marker_id(t)->0) {
                    s
                } else {
                    let f = idea_fields(t);
                    (
                        out.push(
                            recovered(
                                "recovered-idea-"@ + decimal(out.len()),
                                "recovered-ideas-"@ + date,
                                date,
                                f.0,
                                f.1,
                                "idea"@,
                                f.2,
                                seq![],
                                take_chars(f.3, 120),
                                f.3,
                                (seq![], seq![], seq![]),
                                None,
                            ),
                        ),
                        cur,
                    )
                }
            },
        }
    }
}

pub open spec fn idea_scan(ls: Seq<Seq<char>>, fmt: Seq<char>, covered: Seq<Seq<char>>) -> IdeaScan
    decreases ls.len(),
{
    if ls.len() == 0 {
        (seq![], None)
    } else {
        idea_step(idea_scan(ls.drop_last(), fmt, covered), ls.last(), fmt, covered)
    }
}

/// The captures a day note lists that no record knows of, as notes.
pub open spec fn day_note_records(ls: Seq<Seq<char>>, date: Seq<char>, skip: Seq<Seq<char>>) -> Seq<RecordModel>
    decreases ls.len(),
{
    if ls.len() == 0 {
        seq![]
    } else {
        let rest = day_note_records(ls.drop_last(), date, skip);
        let l = ls.last();
        if !starts_with(l, "## "@) {
            rest
        } else {
            match split_once(l.skip(3), " · "@) {
                None => rest,
                Some(a) => match split_once(a.1, " · "@) {
                    None => rest,
                    Some(b) => {
                        let id = trim_char(trim(b.0), '`');
                        if skip.contains(id) {
                            rest
                        } else {
                            rest.push(
                                recovered(
                                    id + "-r-note"@,
                                    id,
                                    date,
                                    trim(a.0),
                                    seq![],
                                    "note"@,
                                    seq![],
                                    seq![],
                                    trim(b.1),
                                    seq![],
                                    (seq![], seq![], seq![]),
                                    None,
                                ),
                            )
                        }
                    },
                },
            }
        }
    }
}


/// A project or area page as read: its kind, slug (the file stem) and text.
pub struct PageFile {
    pub kind: String,
    pub slug: String,
    pub text: String,
}

/// A day note as read: its file stem and text.
pub struct DayFile {
    pub date: String,
    pub text: String,
}

/// What a rebuild produces: the whole index, sorted; what it did; and the
/// new text of `tasks.md` when legacy lines were marked.
pub struct RebuildOutcome {
    pub records: Vec<EntryRecord>,
    pub report: RebuildReport,
    pub tasks_text: Option<String>,
}

/// The records written at capture time.
pub open spec fn keep_real(s: Seq<RecordModel>) -> Seq<RecordModel>
    decreases s.len(),
{
    if s.len() == 0 {
        seq![]
    } else if s.last().source == SOURCE_RECOVERED@ {
        keep_real(s.drop_last())
    } else {
        keep_real(s.drop_last()).push(s.last())
    }
}

pub open spec fn item_ids(s: Seq<RecordModel>) -> Seq<Seq<char>> {
    s.map_values(|r: RecordModel| r.item_id)
}

pub open spec fn record_ids(s: Seq<RecordModel>) -> Seq<Seq<char>> {
    s.map_values(|r: RecordModel| r.id)
}

/// Who a page is: its registry row's name and scope, or else its title (or
/// slug) and no scope.
pub open spec fn page_who(meta: Seq<crate::actions::PM>, kind: Seq<char>, slug: Seq<char>, text: Seq<char>) -> PageWho {
    match crate::actions::find_slug(meta, slug) {
        Some(k) => (kind, slug, meta[k].1, meta[k].3),
        None => (
            kind,
            slug,
            match spec_page_title(lines(text)) {
                Some(t) => t,
                None => slug,
            },
            seq![],
        ),
    }
}

pub open spec fn pages_records(
    pages: Seq<(Seq<char>, Seq<char>, Seq<char>)>,
    meta: Seq<crate::actions::PM>,
    fmt: Seq<char>,
    covered: Seq<Seq<char>>,
) -> Seq<RecordModel>
    decreases pages.len(),
{
    if pages.len() == 0 {
        seq![]
    } else {
        let p = pages.last();
        pages_records(pages.drop_last(), meta, fmt, covered) + spec_parse_entity_page(
            p.2,
            fmt,
            page_who(meta, p.0, p.1, p.2),
            covered,
        )
    }
}

pub open spec fn days_records(days: Seq<(Seq<char>, Seq<char>)>, skip: Seq<Seq<char>>) -> Seq<RecordModel>
    decreases days.len(),
{
    if days.len() == 0 {
        seq![]
    } else {
        let d = days.last();
        days_records(days.drop_last(), skip) + if crate::calendar::naive_date_parse(d.0, crate::calendar::pat_iso()) is Some {
            day_note_records(lines(d.1), d.0, skip)
        } else {
            seq![]
        }
    }
}

/// The recovered half of a rebuild: page records, task records (and how
/// many lines were marked, and the marked text), idea records, and
/// day-note records for captures nothing else knows.
pub open spec fn recovered_part(
    all: Seq<RecordModel>,
    meta: Seq<crate::actions::PM>,
    pages: Seq<(Seq<char>, Seq<char>, Seq<char>)>,
    tasks: Option<Seq<char>>,
    ideas: Option<Seq<char>>,
    days: Seq<(Seq<char>, Seq<char>)>,
    fmt: Seq<char>,
    today: Seq<char>,
) -> (Seq<RecordModel>, nat, Option<Seq<char>>) {
    let kept = keep_real(all);
    let covered = item_ids(kept);
    let kept_ids = record_ids(kept);
    let a = pages_records(pages, meta, fmt, covered);
    let ts = match tasks {
        Some(t) => task_scan(lines(t), fmt, kept_ids, today),
        None => (seq![], seq![], seq![], 0, 0),
    };
    let b = a + ts.0;
    let c = b + match ideas {
        Some(t) => idea_scan(lines(t), fmt, kept_ids).0,
        None => seq![],
    };
    let d = c + days_records(days, covered + item_ids(c));
    (d, ts.4, if tasks is Some && ts.4 > 0 { Some(marked_text(ts.1)) } else { None })
}


proof fn lemma_rms_multiset(a: Seq<EntryRecord>, b: Seq<EntryRecord>)
    requires
        a.to_multiset() == b.to_multiset(),
    ensures
        rms(a).to_multiset() == rms(b).to_multiset(),
    decreases a.len(),
{
    broadcast use vstd::seq_lib::group_to_multiset_ensures;
    broadcast use vstd::multiset::group_multiset_axioms;

    if a.len() == 0 {
        assert(a.to_multiset().len() == a.len());
        assert(b.to_multiset().len() == b.len());
        assert(b.len() == 0);
        assert(rms(a) =~= Seq::<RecordModel>::empty());
        assert(rms(b) =~= Seq::<RecordModel>::empty());
    } else {
        let x = a.last();
        let a2 = a.drop_last();
        assert(a2.push(x) =~= a);
        assert(a.to_multiset().count(x) > 0);
        assert(b.contains(x));
        let k = choose|k: int| 0 <= k < b.len() && b[k] == x;
        let b2 = b.remove(k);
        assert(b2.to_multiset() =~= b.to_multiset().remove(x));
        assert(a2.to_multiset() =~= a.to_multiset().remove(x));
        lemma_rms_multiset(a2, b2);
        assert(rms(a) =~= rms(a2).push(rm(x)));
        assert(b2.insert(k, x) =~= b);
        assert(rms(b) =~= rms(b2).insert(k, rm(x)));
        assert(rms(b2).insert(k, rm(x)).to_multiset() =~= rms(b2).to_multiset().insert(rm(x)));
    }
}

// ------------------------------------------------------------------ exec

/// The text of a page's first `# ` line.
pub fn page_title(text: &str) -> (r: Option<String>)
    ensures
        match r {
            Some(t) => spec_page_title(lines(text@)) == Some(t@),
            None => spec_page_title(lines(text@)) is None,
        },
{
    let ls = lines_of(text);
    let ghost g = vv(ls@);
    let mut i: usize = 0;
    proof {
        assert(g.skip(0) =~= g);
    }
    while i < ls.len()
        invariant
            0 <= i <= ls.len(),
            g == vv(ls@),
            g == lines(text@),
            spec_page_title(g) == spec_page_title(g.skip(i as int)),
        decreases ls.len() - i,
    {
        proof {
            assert(g.skip(i as int)[0] == ls@[i as int]@);
            assert(g.skip(i as int).drop_first() =~= g.skip(i + 1));
        }
        if starts_with_str(&ls[i], "# ") {
            proof {
                reveal_strlit("# ");
            }
            let rest = slice_of(&ls[i], 2, ls[i].len());
            return Some(to_string(&trim_exec(&rest)));
        }
        i += 1;
    }
    proof {
        assert(g.skip(i as int) =~= Seq::<Seq<char>>::empty());
    }
    None
}

/// A recovered record: no body or lists yet, personal scope when none is
/// known, tagged `recovered`.
pub fn record(
    id: String,
    item_id: String,
    date: String,
    time: String,
    scope: &str,
    kind: &str,
    slug: &str,
    name: &str,
    title: String,
) -> (r: EntryRecord)
    ensures
        r.id == id,
        r.item_id == item_id,
        r.date == date,
        r.time == time,
        r.scope@ == (if scope@.len() == 0 {
            "personal"@
        } else {
            scope@
        }),
        r.kind@ == kind@,
        r.slug@ == slug@,
        r.name@ == name@,
        r.title == title,
        r.body@ == Seq::<char>::empty(),
        sv(r.accomplished@) == Seq::<Seq<char>>::empty(),
        sv(r.decisions@) == Seq::<Seq<char>>::empty(),
        sv(r.open@) == Seq::<Seq<char>>::empty(),
        r.due is None,
        r.source@ == SOURCE_RECOVERED@,
{
    let sc = chars_of(scope);
    proof {
        assert(sv(Seq::<String>::empty()) =~= Seq::<Seq<char>>::empty());
    }
    EntryRecord {
        id,
        item_id,
        date,
        time,
        scope: if sc.len() == 0 {
            "personal".to_string()
        } else {
            scope.to_string()
        },
        kind: kind.to_string(),
        slug: slug.to_string(),
        name: name.to_string(),
        title,
        body: String::new(),
        accomplished: Vec::new(),
        decisions: Vec::new(),
        open: Vec::new(),
        due: None,
        source: SOURCE_RECOVERED.to_string(),
    }
}

fn bold_inner_exec(t: &[char]) -> (r: Option<Vec<char>>)
    ensures
        match r {
            Some(v) => bold_inner(t@) == Some(v@),
            None => bold_inner(t@) is None,
        },
{
    if t.len() >= 4 && starts_with_str(t, "**") && ends_with_str(t, "**") {
        Some(slice_of(t, 2, t.len() - 2))
    } else {
        None
    }
}

fn push_view(v: &mut Vec<String>, x: Vec<char>)
    ensures
        sv(final(v)@) == sv(old(v)@).push(x@),
{
    v.push(to_string(&x));
    proof {
        assert(sv(v@) =~= sv(old(v)@).push(x@));
    }
}

/// Read a rendered entity section back into its parts: the reverse of
/// rendering one.
pub fn parse_section_body(body: &str) -> (r: ParsedSection)
    ensures
        (r.title@, sv(r.accomplished@), sv(r.decisions@), sv(r.open@), r.rest@) == spec_parse_section_body(body@),
{
    let ls = lines_of(body);
    let ghost g = vv(ls@);
    let mut mode: u8 = 0;
    let mut title: Vec<char> = Vec::new();
    let mut acc: Vec<String> = Vec::new();
    let mut dec: Vec<String> = Vec::new();
    let mut open: Vec<String> = Vec::new();
    let mut rest: Vec<char> = Vec::new();
    let mut i: usize = 0;
    proof {
        assert(g.take(0) =~= Seq::<Seq<char>>::empty());
        assert(sv(acc@) =~= Seq::<Seq<char>>::empty());
        assert(sv(dec@) =~= Seq::<Seq<char>>::empty());
        assert(sv(open@) =~= Seq::<Seq<char>>::empty());
    }
    while i < ls.len()
        invariant
            0 <= i <= ls.len(),
            g == vv(ls@),
            g == lines(body@),
            mode <= 3,
            (mode as int, title@, sv(acc@), sv(dec@), sv(open@), rest@) == section_scan(g.take(i as int)),
        decreases ls.len() - i,
    {
        proof {
            assert(g.take(i + 1).drop_last() =~= g.take(i as int));
            assert(g.take(i + 1).last() == ls@[i as int]@);
        }
        let line = &ls[i];
        let t = trim_exec(line);
        let bullet = starts_with_str(&t, "- ");
        if eq_str(&t, "**Accomplished**") {
            mode = 1;
        } else if eq_str(&t, "**Decided**") {
            mode = 2;
        } else if eq_str(&t, "**Open**") {
            mode = 3;
        } else if t.len() == 0 {
            if mode == 0 {
                rest.push('\n');
            }
        } else if bullet && mode != 0 {
            proof {
                reveal_strlit("- ");
            }
            let item = trim_exec(&slice_of(&t, 2, t.len()));
            if mode == 1 {
                push_view(&mut acc, item);
            } else if mode == 2 {
                push_view(&mut dec, item);
            } else {
                push_view(&mut open, item);
            }
        } else {
            if !bullet {
                mode = 0;
            }
            if starts_with_str(&t, "[[days/") {
            } else if title.len() == 0 && crate::text::is_blank_exec(&rest) && bold_inner_exec(&t).is_some() {
                let inner = bold_inner_exec(&t);
                match inner {
                    Some(v) => {
                        title = trim_exec(&v);
                    },
                    None => {},
                }
            } else {
                let ghost r0 = rest@;
                push_all(&mut rest, line);
                rest.push('\n');
                proof {
                    reveal_strlit("\n");
                    assert(rest@ =~= r0 + line@ + "\n"@);
                }
            }
        }
        i += 1;
    }
    proof {
        assert(g.take(ls.len() as int) =~= g);
    }
    let rt = trim_exec(&rest);
    let title = if title.len() == 0 {
        let rls = crate::text::split_lines(&rt);
        if rls.len() > 0 {
            proof {
                assert(vv(rls@)[0] == rls@[0]@);
            }
            take_chars_exec(&rls[0], 80)
        } else {
            Vec::new()
        }
    } else {
        title
    };
    ParsedSection { title: to_string(&title), accomplished: acc, decisions: dec, open, rest: to_string(&rt) }
}

/// The slug of the first `[[…]]` link in `s`, if it names one.
pub fn wikilink_slug_opt(s: &[char]) -> (r: Option<String>)
    ensures
        match r {
            Some(v) => spec_wikilink_slug(s@) == Some(v@),
            None => spec_wikilink_slug(s@) is None,
        },
{
    let i = match find_str(s, "[[") {
        Some(i) => i,
        None => return None,
    };
    proof {
        reveal_strlit("[[");
        crate::text::lemma_find_props(s@, "[["@);
        assert(s@.len() == s.len());
    }
    let rest = slice_of(s, i + 2, s.len());
    proof {
        assert(rest@ =~= s@.skip(i + 2));
    }
    let e = match find_str(&rest, "]]") {
        Some(e) => e,
        None => return None,
    };
    proof {
        reveal_strlit("]]");
        crate::text::lemma_find_props(rest@, "]]"@);
    }
    let head = slice_of(&rest, 0, e);
    let target = trim_exec(&before_char_exec(&head, '|'));
    let slug = trim_exec(&after_last_exec(&target, '/'));
    if slug.len() == 0 {
        None
    } else {
        Some(to_string(&slug))
    }
}

/// `s` without its trailing ` · [[…]]` link.
pub fn strip_trailing_link(s: &[char]) -> (r: Vec<char>)
    ensures
        r@ == spec_strip_trailing_link(s@),
{
    match find_str(s, " · [[") {
        Some(i) => {
            proof {
                crate::text::lemma_find_props(s@, " · [["@);
                assert(s@.len() == s.len());
            }
            slice_of(s, 0, i)
        },
        None => copy(s),
    }
}


fn push_rec(out: &mut Vec<EntryRecord>, r: EntryRecord)
    ensures
        rms(final(out)@) == rms(old(out)@).push(rm(r)),
        final(out)@.len() == old(out)@.len() + 1,
{
    let ghost x = rm(r);
    out.push(r);
    proof {
        assert(rms(out@) =~= rms(old(out)@).push(x));
    }
}

fn numbered(head: &[char], mid: &str, n: usize) -> (r: String)
    ensures
        r@ == head@ + mid@ + decimal(n as nat),
{
    let mut v = copy(head);
    push_str(&mut v, mid);
    push_all(&mut v, &decimal_exec(n));
    to_string(&v)
}

fn page_flush_exec(
    out: &mut Vec<EntryRecord>,
    date: &Option<Vec<char>>,
    item: &mut Option<Vec<char>>,
    body: &mut Vec<char>,
    n: &mut usize,
    kind: &str,
    slug: &str,
    name: &str,
    scope: &str,
    covered: &Vec<String>,
)
    requires
        *old(n) <= old(out).len(),
    ensures
        ({
            let f = page_flush(
                (rms(old(out)@), crate::entity::ov(*date), crate::entity::ov(*old(item)), old(body)@, *old(n) as nat),
                (kind@, slug@, name@, scope@),
                sv(covered@),
            );
            rms(final(out)@) == f.0 && *final(item) is None && final(body)@ == f.3 && *final(n) as nat == f.4
        }),
        *final(n) <= final(out).len(),
{
    let it = item.take();
    match (date, it) {
        (Some(d), Some(id)) => {
            if eq_str(&id, "_legacy") || crate::text::contains_string(covered, &id) {
                *body = Vec::new();
                return;
            }
            let bs = to_string(body);
            let p = parse_section_body(bs.as_str());
            *body = Vec::new();
            let rid = numbered(&id, "-r", *n);
            let mut r = record(rid, to_string(&id), to_string(d), String::new(), scope, kind, slug, name, p.title);
            r.accomplished = p.accomplished;
            r.decisions = p.decisions;
            r.open = p.open;
            r.body = p.rest;
            proof {
                reveal_strlit("");
            }
            let ghost before = out.len();
            push_rec(out, r);
            assert(out.len() == before + 1);
            *n = *n + 1;
        },
        _ => {
            *body = Vec::new();
        },
    }
}

/// The records an entity page yields: one per dated capture section that
/// is neither legacy text nor covered by a real record, numbered in page
/// order. A `##` that is not a date (the Overview, or anything hand-written)
/// ends the dated log until the next date.
pub fn parse_entity_page(
    text: &str,
    kind: &str,
    slug: &str,
    name: &str,
    scope: &str,
    date_fmt: &str,
    covered: &Vec<String>,
) -> (r: Vec<EntryRecord>)
    ensures
        rms(r@) == spec_parse_entity_page(text@, date_fmt@, (kind@, slug@, name@, scope@), sv(covered@)),
{
    let ls = lines_of(text);
    let ghost g = vv(ls@);
    let ghost who = (kind@, slug@, name@, scope@);
    let mut out: Vec<EntryRecord> = Vec::new();
    let mut date: Option<Vec<char>> = None;
    let mut item: Option<Vec<char>> = None;
    let mut body: Vec<char> = Vec::new();
    let mut n: usize = 0;
    let mut i: usize = 0;
    proof {
        assert(g.take(0) =~= Seq::<Seq<char>>::empty());
        assert(rms(out@) =~= Seq::<RecordModel>::empty());
    }
    while i < ls.len()
        invariant
            0 <= i <= ls.len(),
            g == vv(ls@),
            g == lines(text@),
            who == (kind@, slug@, name@, scope@),
            n <= out.len(),
            (rms(out@), crate::entity::ov(date), crate::entity::ov(item), body@, n as nat) == page_scan(
                g.take(i as int),
                date_fmt@,
                who,
                sv(covered@),
            ),
        decreases ls.len() - i,
    {
        proof {
            assert(g.take(i + 1).drop_last() =~= g.take(i as int));
            assert(g.take(i + 1).last() == ls@[i as int]@);
        }
        let line = &ls[i];
        if starts_with_str(line, "## ") {
            proof {
                reveal_strlit("## ");
            }
            page_flush_exec(&mut out, &date, &mut item, &mut body, &mut n, kind, slug, name, scope, covered);
            let rest = slice_of(line, 3, line.len());
            let t = to_string(&trim_exec(&rest));
            date = match parse_date_to_iso(t.as_str(), date_fmt) {
                Some(d) => Some(chars_of(d.as_str())),
                None => None,
            };
        } else if date.is_some() {
            match crate::entity::item_heading_exec(line) {
                Some(id) => {
                    page_flush_exec(&mut out, &date, &mut item, &mut body, &mut n, kind, slug, name, scope, covered);
                    item = Some(id);
                },
                None => {
                    let ghost b0 = body@;
                    push_all(&mut body, line);
                    body.push('\n');
                    proof {
                        reveal_strlit("\n");
                        assert(body@ =~= b0 + line@ + "\n"@);
                    }
                },
            }
        }
        i += 1;
    }
    proof {
        assert(g.take(ls.len() as int) =~= g);
    }
    page_flush_exec(&mut out, &date, &mut item, &mut body, &mut n, kind, slug, name, scope, covered);
    out
}

fn split_char_exec(s: &[char], c: char) -> (r: Vec<Vec<char>>)
    ensures
        vv(r@) == split_char(s@, c),
        r.len() > 0,
    decreases s.len(),
{
    let cs: Vec<char> = vec![c];
    proof {
        assert(cs@ =~= seq![c]);
    }
    match find_exec(s, &cs) {
        Some(i) => {
            proof {
                crate::text::lemma_find_props(s@, seq![c]);
                assert(s@.len() == s.len());
            }
            let head = slice_of(s, 0, i);
            let tail = slice_of(s, i + 1, s.len());
            proof {
                assert(tail@ =~= s@.skip(i + 1));
            }
            let mut rest = split_char_exec(&tail, c);
            let mut v: Vec<Vec<char>> = Vec::new();
            v.push(head);
            let ghost hv = v@;
            v.append(&mut rest);
            proof {
                assert(vv(v@) =~= seq![hv[0]@] + split_char(tail@, c));
            }
            v
        },
        None => {
            let mut v: Vec<Vec<char>> = Vec::new();
            v.push(copy(s));
            proof {
                assert(vv(v@) =~= seq![s@]);
            }
            v
        },
    }
}

/// A task line read back into its fields; a line with no capture date is
/// dated `today`.
pub fn parse_task_line(line: &[char], date_fmt: &str, today: &str) -> (r: ParsedTask)
    ensures
        (r.item_id@, r.scope@, r.text@, r.date@, crate::filing::os(r.due), r.slug@) == spec_parse_task_line(
            line@,
            date_fmt@,
            today@,
        ),
{
    let a = crate::names::trim_start_all_exec(line, "- [ ]");
    let b = crate::names::trim_start_all_exec(&a, "- [x]");
    let c = crate::names::trim_start_all_exec(&b, "- [X]");
    let body = trim_exec(&c);
    let mut scope: Vec<char> = Vec::new();
    let mut rest = copy(&body);
    match find_str(&body, ")") {
        Some(close) => {
            if starts_with_str(&body, "(") {
                proof {
                    reveal_strlit(")");
                    reveal_strlit("(");
                    crate::text::lemma_find_props(body@, ")"@);
                    assert(body@.len() == body.len());
                    assert(body@.take(1)[0] == body@[0]);
                    assert(body@.subrange(close as int, close + 1)[0] == body@[close as int]);
                    assert(close >= 1);
                }
                scope = trim_exec(&slice_of(&body, 1, close));
                rest = trim_exec(&slice_of(&body, close + 1, body.len()));
            }
        },
        None => {},
    }
    let slug = match wikilink_slug_opt(&rest) {
        Some(s) => s,
        None => String::new(),
    };
    let (text0, tail) = match split_once_str(&rest, " — captured ") {
        Some(p) => p,
        None => (copy(&rest), Vec::new()),
    };
    let text = trim_exec(&strip_trailing_link(&text0));
    let parts = split_char_exec(&tail, '·');
    proof {
        assert(vv(parts@)[0] == parts@[0]@);
    }
    let p0 = to_string(&trim_exec(&parts[0]));
    let date0 = match parse_date_to_iso(p0.as_str(), date_fmt) {
        Some(d) => d,
        None => String::new(),
    };
    let d0c = chars_of(date0.as_str());
    let date = if d0c.len() == 0 {
        today.to_string()
    } else {
        date0
    };
    let ghost pv = vv(parts@);
    let ghost want = spec_parse_task_line(line@, date_fmt@, today@);
    let mut due: Option<String> = None;
    let mut k = parts.len();
    proof {
        assert(pv.skip(1).take((k - 1) as int) =~= pv.skip(1));
        assert(scope@ == want.1);
        assert(text@ == want.2);
        assert(date@ == want.3);
        assert(slug@ == want.5);
        assert(due_of(pv.skip(1), date_fmt@) == want.4);
    }
    while k > 1
        invariant
            1 <= k <= parts.len(),
            pv == vv(parts@),
            due is None,
            scope@ == want.1,
            text@ == want.2,
            date@ == want.3,
            slug@ == want.5,
            due_of(pv.skip(1), date_fmt@) == want.4,
            want == spec_parse_task_line(line@, date_fmt@, today@),
            due_of(pv.skip(1), date_fmt@) == due_of(pv.skip(1).take(k - 1), date_fmt@),
        decreases k,
    {
        proof {
            let q = pv.skip(1).take(k - 1);
            assert(q.last() == parts@[k - 1]@);
            assert(q.drop_last() =~= pv.skip(1).take(k - 2));
        }
        let pt = trim_exec(&parts[k - 1]);
        if starts_with_str(&pt, "due ") {
            proof {
                reveal_strlit("due ");
            }
            let tail4 = slice_of(&pt, 4, pt.len());
            proof {
                assert(tail4@ =~= pt@.skip(4));
                assert(pv.skip(1).take(k - 1).last() == parts@[k - 1]@);
            }
            let d = to_string(&trim_exec(&tail4));
            let found = parse_date_to_iso(d.as_str(), date_fmt);
            proof {
                let q = pv.skip(1).take(k - 1);
                assert(q.len() > 0);
                assert(trim(q.last()) == pt@);
                assert(starts_with(pt@, "due "@));
                assert(due_of(q, date_fmt@) == spec_parse_date_to_iso(trim(pt@.skip(4)), date_fmt@));
                assert(crate::filing::os(found) == due_of(pv.skip(1), date_fmt@));
            }
            let mut item_id = chars_of("recovered-tasks-");
            push_str(&mut item_id, date.as_str());
            return ParsedTask {
                item_id: to_string(&item_id),
                scope: to_string(&scope),
                text: to_string(&text),
                date,
                due: found,
                slug,
            };
        }
        k -= 1;
    }
    proof {
        assert(pv.skip(1).take(0) =~= Seq::<Seq<char>>::empty());
    }
    let mut item_id = chars_of("recovered-tasks-");
    push_str(&mut item_id, date.as_str());
    ParsedTask { item_id: to_string(&item_id), scope: to_string(&scope), text: to_string(&text), date, due, slug }
}


fn task_candidate_exec(n: u128) -> (r: Vec<char>)
    ensures
        r@ == task_candidate(n as nat),
{
    let mut v = chars_of("recovered-task-");
    push_all(&mut v, &crate::text::decimal_wide(n));
    v
}

/// Give legacy task lines an id marker, so their checkbox becomes
/// trackable, and recover a record for each task line that no real record
/// owns. Lines that carry a real record's marker are left exactly as they
/// are; so is the wording of every line. Returns the records, the new text
/// when any line was marked, and how many were.
pub fn recover_tasks(text: &str, date_fmt: &str, kept_ids: &Vec<String>, today: &str) -> (r: (
    Vec<EntryRecord>,
    Option<String>,
    usize,
))
    ensures
        ({
            let s = task_scan(lines(text@), date_fmt@, sv(kept_ids@), today@);
            &&& rms(r.0@) == s.0
            &&& r.2 as nat == s.4
            &&& (s.4 > 0 ==> crate::filing::os(r.1) == Some(marked_text(s.1)))
            &&& (s.4 == 0 ==> r.1 is None)
        }),
{
    let ls = lines_of(text);
    let ghost g = vv(ls@);
    let mut out: Vec<EntryRecord> = Vec::new();
    let mut kept_lines: Vec<Vec<char>> = Vec::new();
    let mut used: Vec<String> = Vec::new();
    let mut n: u128 = 0;
    let mut marked: usize = 0;
    let mut i: usize = 0;
    proof {
        assert(g.take(0) =~= Seq::<Seq<char>>::empty());
        assert(rms(out@) =~= Seq::<RecordModel>::empty());
        assert(vv(kept_lines@) =~= Seq::<Seq<char>>::empty());
        assert(sv(used@) =~= Seq::<Seq<char>>::empty());
    }
    while i < ls.len()
        invariant
            0 <= i <= ls.len(),
            g == vv(ls@),
            g == lines(text@),
            used.len() <= i,
            marked <= i,
            2 * (n as int) <= (i as int) * (i as int + 3),
            (rms(out@), vv(kept_lines@), sv(used@), n as nat, marked as nat) == task_scan(
                g.take(i as int),
                date_fmt@,
                sv(kept_ids@),
                today@,
            ),
        decreases ls.len() - i,
    {
        proof {
            assert(g.take(i + 1).drop_last() =~= g.take(i as int));
            assert(g.take(i + 1).last() == ls@[i as int]@);
        }
        let line = &ls[i];
        let (lo, _) = crate::text::trim_bounds(line);
        let t = slice_of(line, lo, line.len());
        let is_task = starts_with_str(&t, "- [ ]") || starts_with_str(&t, "- [x]") || starts_with_str(&t, "- [X]");
        let existing = if is_task {
            marker_id(&t)
        } else {
            None
        };
        let keep_as_is = !is_task || match &existing {
            Some(id) => {
                let ic = chars_of(id.as_str());
                crate::text::contains_string(kept_ids, &ic)
            },
            None => false,
        };
        let ghost s0 = task_scan(g.take(i as int), date_fmt@, sv(kept_ids@), today@);
        let ghost st = task_step(s0, line@, date_fmt@, sv(kept_ids@), today@);
        proof {
            assert(t@ == trim_start(line@));
        }
        if keep_as_is {
            crate::text::push_line(&mut kept_lines, copy(line));
            proof {
                assert(2 * (n as int) <= (i as int + 1) * (i as int + 4)) by (nonlinear_arith)
                    requires
                        2 * (n as int) <= (i as int) * (i as int + 3),
                        i >= 0;
            }
        } else {
            // The first free candidate number, searched as far as there are
            // ids in use.
            let mut k: u128 = n;
            let mut fuel: usize = used.len() + 1;
            proof {
                assert(2 * (n as int) <= (i as int) * (i as int + 3));
            }
            let mut cand = task_candidate_exec(k);
            while fuel > 0 && crate::text::contains_string(&used, &cand)
                invariant
                    fuel <= used.len() + 1,
                    k as int + fuel as int == n as int + used.len() + 1,
                    used.len() <= i,
                    2 * (n as int) <= (i as int) * (i as int + 3),
                    i < usize::MAX,
                    cand@ == task_candidate(k as nat),
                    fresh_task_number(sv(used@), n as nat, used.len() as nat + 1) == fresh_task_number(
                        sv(used@),
                        k as nat,
                        fuel as nat,
                    ),
                decreases fuel,
            {
                proof {
                    assert((i as int) * (i as int + 3) < 0x1_0000_0000_0000_0000_0000_0000_0000_0000) by (nonlinear_arith)
                        requires i < usize::MAX, usize::MAX <= 0xffff_ffff_ffff_ffff;
                }
                k = k + 1;
                fuel = fuel - 1;
                cand = task_candidate_exec(k);
            }
            proof {
                assert(fresh_task_number(sv(used@), k as nat, fuel as nat) == k as nat);
            }
            let (id, n2) = match existing {
                Some(e) => (e, n),
                None => {
                    proof {
                        assert((i as int) * (i as int + 3) < 0x1_0000_0000_0000_0000_0000_0000_0000_0000) by (nonlinear_arith)
                            requires i < usize::MAX, usize::MAX <= 0xffff_ffff_ffff_ffff;
                    }
                    (to_string(&cand), k + 1)
                },
            };
            let idc = chars_of(id.as_str());
            let p = parse_task_line(&t, date_fmt, today);
            let mut r = record(id.clone(), p.item_id, p.date, String::new(), p.scope.as_str(), "task", p.slug.as_str(), "", p.text);
            r.due = p.due;
            proof {
                reveal_strlit("");
                let pp = spec_parse_task_line(t@, date_fmt@, today@);
                let want = recovered(id@, pp.0, pp.3, seq![], pp.1, "task"@, pp.5, seq![], pp.2, seq![], (seq![], seq![], seq![]), pp.4);
                assert(rm(r).id == want.id);
                assert(rm(r).item_id == want.item_id);
                assert(rm(r).date == want.date);
                assert(rm(r).time == want.time);
                assert(rm(r).scope == want.scope);
                assert(rm(r).kind == want.kind);
                assert(rm(r).slug == want.slug);
                assert(rm(r).name == want.name);
                assert(rm(r).title == want.title);
                assert(rm(r).body == want.body);
                assert(rm(r).accomplished == want.accomplished);
                assert(rm(r).due == want.due);
                assert(rm(r).source == want.source);
                assert(rm(r) == want);
            }
            push_rec(&mut out, r);
            let ghost ub = sv(used@);
            used.push(id);
            proof {
                assert(sv(used@) =~= ub.push(idc@));
            }
            if contains_str(&t, "<!-- e:") {
                crate::text::push_line(&mut kept_lines, copy(line));
            } else {
                let mut marker: Vec<char> = chars_of("] <!-- e:");
                push_all(&mut marker, &idc);
                push_str(&mut marker, " --> ");
                let ms = to_string(&marker);
                proof {
                    reveal_strlit("] <!-- e:");
                    reveal_strlit(" --> ");
                    assert(ms@ =~= "] <!-- e:"@ + id@ + " --> "@);
                }
                let rebuilt = crate::tasks::replace_first_exec(&t, "] ", ms.as_str());
                let mut full = slice_of(line, 0, lo);
                push_all(&mut full, &rebuilt);
                proof {
                    assert(line@.take(line@.len() - t@.len()) =~= line@.subrange(0, lo as int));
                }
                crate::text::push_line(&mut kept_lines, full);
                marked = marked + 1;
            }
            proof {
                assert(rms(out@) == st.0);
                assert(vv(kept_lines@) == st.1);
                assert(sv(used@) == st.2);
                assert(n2 as nat == st.3);
                assert(marked as nat == st.4);
                assert(2 * (n2 as int) <= (i as int + 1) * (i as int + 1 + 3)) by (nonlinear_arith)
                    requires
                        n2 as int <= n as int + used.len() + 1,
                        2 * (n as int) <= (i as int) * (i as int + 3),
                        used.len() <= i + 1;
            }
            n = n2;
        }
        i += 1;
    }
    proof {
        assert(g.take(ls.len() as int) =~= g);
    }
    if marked > 0 {
        let mut joined = crate::text::join_exec(&kept_lines, "\n");
        if !ends_with_str(&joined, "\n") {
            joined.push('\n');
        }
        (out, Some(to_string(&joined)), marked)
    } else {
        (out, None, marked)
    }
}


fn idea_fields_exec(t: &[char]) -> (r: (Vec<char>, Vec<char>, String, Vec<char>))
    requires
        t.len() >= 2,
    ensures
        (r.0@, r.1@, r.2@, r.3@) == idea_fields(t@),
{
    let b0 = trim_exec(&slice_of_from(t, 2));
    let mut time: Vec<char> = Vec::new();
    let mut b1 = copy(&b0);
    if starts_with_str(&b0, "**") {
        proof {
            reveal_strlit("**");
        }
        let after = slice_of_from(&b0, 2);
        match split_once_str(&after, "**") {
            Some((t0, r)) => {
                time = trim_exec(&t0);
                b1 = trim_exec(&r);
            },
            None => {},
        }
    }
    let mut b2 = copy(&b1);
    match find_str(&b1, "-->") {
        Some(after) => {
            if starts_with_str(&b1, "<!--") {
                proof {
                    reveal_strlit("-->");
                    crate::text::lemma_find_props(b1@, "-->"@);
                    assert(b1@.len() == b1.len());
                }
                b2 = trim_exec(&slice_of_from(&b1, after + 3));
            }
        },
        None => {},
    }
    let mut scope: Vec<char> = Vec::new();
    let mut b3 = copy(&b2);
    if starts_with_str(&b2, "(") {
        match find_str(&b2, ")") {
            Some(close) => {
                proof {
                    reveal_strlit(")");
                    reveal_strlit("(");
                    crate::text::lemma_find_props(b2@, ")"@);
                    assert(b2@.len() == b2.len());
                    assert(b2@.take(1)[0] == b2@[0]);
                    assert(b2@.subrange(close as int, close + 1)[0] == b2@[close as int]);
                }
                scope = trim_exec(&slice_of(&b2, 1, close));
                b3 = trim_exec(&slice_of_from(&b2, close + 1));
            },
            None => {},
        }
    }
    let slug = match wikilink_slug_opt(&b3) {
        Some(s) => s,
        None => String::new(),
    };
    let text = trim_exec(&strip_trailing_link(&b3));
    proof {
        reveal_strlit("");
    }
    (time, scope, slug, text)
}

fn slice_of_from(s: &[char], lo: usize) -> (r: Vec<char>)
    requires
        lo <= s.len(),
    ensures
        r@ == s@.skip(lo as int),
{
    let r = slice_of(s, lo, s.len());
    proof {
        assert(r@ =~= s@.skip(lo as int));
    }
    r
}

/// Recover a record for every idea bullet under a dated heading that no
/// real record owns, numbered in file order.
pub fn recover_ideas(text: &str, date_fmt: &str, covered_ids: &Vec<String>) -> (r: Vec<EntryRecord>)
    ensures
        rms(r@) == idea_scan(lines(text@), date_fmt@, sv(covered_ids@)).0,
{
    let ls = lines_of(text);
    let ghost g = vv(ls@);
    let mut out: Vec<EntryRecord> = Vec::new();
    let mut cur: Option<Vec<char>> = None;
    let mut i: usize = 0;
    proof {
        assert(g.take(0) =~= Seq::<Seq<char>>::empty());
        assert(rms(out@) =~= Seq::<RecordModel>::empty());
    }
    while i < ls.len()
        invariant
            0 <= i <= ls.len(),
            g == vv(ls@),
            g == lines(text@),
            (rms(out@), crate::entity::ov(cur)) == idea_scan(g.take(i as int), date_fmt@, sv(covered_ids@)),
        decreases ls.len() - i,
    {
        proof {
            assert(g.take(i + 1).drop_last() =~= g.take(i as int));
            assert(g.take(i + 1).last() == ls@[i as int]@);
        }
        let line = &ls[i];
        if starts_with_str(line, "## ") {
            proof {
                reveal_strlit("## ");
            }
            let rest = slice_of(line, 3, line.len());
            let t = to_string(&trim_exec(&rest));
            cur = match parse_date_to_iso(t.as_str(), date_fmt) {
                Some(d) => Some(chars_of(d.as_str())),
                None => None,
            };
        } else {
            match &cur {
                None => {},
                Some(date) => {
                    let t = trim_exec(line);
                    if starts_with_str(&t, "- ") {
                        proof {
                            reveal_strlit("- ");
                        }
                        let skip = match marker_id(&t) {
                            Some(id) => {
                                let ic = chars_of(id.as_str());
                                crate::text::contains_string(covered_ids, &ic)
                            },
                            None => false,
                        };
                        if !skip {
                            let (time, scope, slug, text_v) = idea_fields_exec(&t);
                            let rid = numbered(&chars_of("recovered-idea"), "-", out.len());
                            let mut item_id = chars_of("recovered-ideas-");
                            push_all(&mut item_id, date);
                            let title = take_chars_exec(&text_v, 120);
                            let ss = to_string(&scope);
                            let mut r = record(rid, to_string(&item_id), to_string(date), to_string(&time), ss.as_str(), "idea", slug.as_str(), "", to_string(&title));
                            r.body = to_string(&text_v);
                            proof {
                                reveal_strlit("");
                                reveal_strlit("recovered-idea");
                                reveal_strlit("-");
                                reveal_strlit("recovered-idea-");
                                assert(r.id@ =~= "recovered-idea-"@ + decimal(out@.len()));
                                let f = idea_fields(t@);
                                let want = recovered(
                                    "recovered-idea-"@ + decimal(out@.len()),
                                    "recovered-ideas-"@ + date@,
                                    date@,
                                    f.0,
                                    f.1,
                                    "idea"@,
                                    f.2,
                                    seq![],
                                    take_chars(f.3, 120),
                                    f.3,
                                    (seq![], seq![], seq![]),
                                    None,
                                );
                                assert(rm(r).id == want.id);
                                assert(rm(r).item_id == want.item_id);
                                assert(rm(r).date == want.date);
                                assert(rm(r).time == want.time);
                                assert(rm(r).scope == want.scope);
                                assert(rm(r).kind == want.kind);
                                assert(rm(r).slug == want.slug);
                                assert(rm(r).name == want.name);
                                assert(rm(r).title == want.title);
                                assert(rm(r).body == want.body);
                                assert(rm(r).accomplished == want.accomplished);
                                assert(rm(r).decisions == want.decisions);
                                assert(rm(r).open == want.open);
                                assert(rm(r).due == want.due);
                                assert(rm(r).source == want.source);
                                assert(rm(r) == want);
                                assert(rms(out@).len() == out@.len());
                            }
                            push_rec(&mut out, r);
                        }
                    }
                },
            }
        }
        i += 1;
    }
    proof {
        assert(g.take(ls.len() as int) =~= g);
    }
    out
}

/// Captures whose only trace is a day note: one `note` record for every
/// `## {time} · \`{id}\` · {title}` section whose id is not in `skip`.
pub fn recover_day_notes(date: &str, text: &str, skip: &Vec<String>) -> (r: Vec<EntryRecord>)
    ensures
        rms(r@) == day_note_records(lines(text@), date@, sv(skip@)),
{
    let ls = lines_of(text);
    let ghost g = vv(ls@);
    let mut out: Vec<EntryRecord> = Vec::new();
    let mut i: usize = 0;
    proof {
        assert(g.take(0) =~= Seq::<Seq<char>>::empty());
        assert(rms(out@) =~= Seq::<RecordModel>::empty());
    }
    while i < ls.len()
        invariant
            0 <= i <= ls.len(),
            g == vv(ls@),
            g == lines(text@),
            rms(out@) == day_note_records(g.take(i as int), date@, sv(skip@)),
        decreases ls.len() - i,
    {
        proof {
            assert(g.take(i + 1).drop_last() =~= g.take(i as int));
            assert(g.take(i + 1).last() == ls@[i as int]@);
        }
        let line = &ls[i];
        if starts_with_str(line, "## ") {
            proof {
                reveal_strlit("## ");
            }
            let rest = slice_of(line, 3, line.len());
            proof {
                assert(rest@ =~= line@.skip(3));
            }
            match split_once_str(&rest, " · ") {
                Some((time, r1)) => match split_once_str(&r1, " · ") {
                    Some((id_bit, title)) => {
                        let id = trim_char_exec(&trim_exec(&id_bit), '`');
                        if !crate::text::contains_string(skip, &id) {
                            let mut idv = copy(&id);
                            push_str(&mut idv, "-r-note");
                            let r = record(to_string(&idv), to_string(&id), date.to_string(), to_string(&trim_exec(&time)), "", "note", "", "", to_string(&trim_exec(&title)));
                            proof {
                                reveal_strlit("");
                                reveal_strlit("-r-note");
                                let want = recovered(
                                    id@ + "-r-note"@,
                                    id@,
                                    date@,
                                    trim(time@),
                                    seq![],
                                    "note"@,
                                    seq![],
                                    seq![],
                                    trim(title@),
                                    seq![],
                                    (seq![], seq![], seq![]),
                                    None,
                                );
                                assert(rm(r).id == want.id);
                                assert(rm(r).item_id == want.item_id);
                                assert(rm(r).date == want.date);
                                assert(rm(r).time == want.time);
                                assert(rm(r).scope == want.scope);
                                assert(rm(r).kind == want.kind);
                                assert(rm(r).slug == want.slug);
                                assert(rm(r).name == want.name);
                                assert(rm(r).title == want.title);
                                assert(rm(r).body == want.body);
                                assert(rm(r).accomplished == want.accomplished);
                                assert(rm(r).due == want.due);
                                assert(rm(r).source == want.source);
                                assert(rm(r) == want);
                            }
                            push_rec(&mut out, r);
                        }
                    },
                    None => {},
                },
                None => {},
            }
        }
        i += 1;
    }
    proof {
        assert(g.take(ls.len() as int) =~= g);
    }
    out
}


fn item_ids_of(v: &Vec<EntryRecord>) -> (r: Vec<String>)
    ensures
        sv(r@) == item_ids(rms(v@)),
{
    let mut out: Vec<String> = Vec::new();
    let mut i: usize = 0;
    while i < v.len()
        invariant
            0 <= i <= v.len(),
            sv(out@) == item_ids(rms(v@)).take(i as int),
        decreases v.len() - i,
    {
        let ghost before = sv(out@);
        out.push(v[i].item_id.clone());
        proof {
            assert(sv(out@) =~= before.push(v@[i as int].item_id@));
            assert(item_ids(rms(v@)).take(i + 1) =~= item_ids(rms(v@)).take(i as int).push(v@[i as int].item_id@));
        }
        i += 1;
    }
    proof {
        assert(item_ids(rms(v@)).take(v.len() as int) =~= item_ids(rms(v@)));
    }
    out
}

fn record_ids_of(v: &Vec<EntryRecord>) -> (r: Vec<String>)
    ensures
        sv(r@) == record_ids(rms(v@)),
{
    let mut out: Vec<String> = Vec::new();
    let mut i: usize = 0;
    while i < v.len()
        invariant
            0 <= i <= v.len(),
            sv(out@) == record_ids(rms(v@)).take(i as int),
        decreases v.len() - i,
    {
        let ghost before = sv(out@);
        out.push(v[i].id.clone());
        proof {
            assert(sv(out@) =~= before.push(v@[i as int].id@));
            assert(record_ids(rms(v@)).take(i + 1) =~= record_ids(rms(v@)).take(i as int).push(v@[i as int].id@));
        }
        i += 1;
    }
    proof {
        assert(record_ids(rms(v@)).take(v.len() as int) =~= record_ids(rms(v@)));
    }
    out
}

fn append_recs(out: &mut Vec<EntryRecord>, more: Vec<EntryRecord>)
    ensures
        rms(final(out)@) == rms(old(out)@) + rms(more@),
{
    let mut m = more;
    let ghost mv = rms(m@);
    out.append(&mut m);
    proof {
        assert(rms(out@) =~= rms(old(out)@) + mv);
    }
}

/// Rebuild the recovered half of the index from what is in the vault:
/// records written at capture time are kept untouched, the captures they
/// cover are never recovered again, and everything else is parsed back out
/// of the pages, `tasks.md`, `ideas.md` and the day notes. The index comes
/// back sorted by (date, time, id).
pub fn rebuild(
    all: Vec<EntryRecord>,
    meta: &Vec<crate::projects::ProjectMeta>,
    pages: &[PageFile],
    tasks: Option<&str>,
    ideas: Option<&str>,
    days: &[DayFile],
    date_fmt: &str,
    today: &str,
) -> (r: RebuildOutcome)
    ensures
        ({
            let part = recovered_part(
                rms(all@),
                crate::actions::pms(meta@),
                pages@.map_values(|p: PageFile| (p.kind@, p.slug@, p.text@)),
                crate::tasks::opt_str(tasks),
                crate::tasks::opt_str(ideas),
                days@.map_values(|d: DayFile| (d.date@, d.text@)),
                date_fmt@,
                today@,
            );
            &&& rms(r.records@).to_multiset() == (keep_real(rms(all@)) + part.0).to_multiset()
            &&& crate::order::sorted_by_key(r.records@, false)
            &&& r.report.recovered as nat == part.0.len()
            &&& r.report.kept as nat == keep_real(rms(all@)).len()
            &&& r.report.tasks_marked as nat == part.1
            &&& crate::filing::os(r.tasks_text) == part.2
        }),
        forall|k: int|
            0 <= k < all@.len() && all@[k].source@ != SOURCE_RECOVERED@ ==> rms(r.records@).contains(
                rm(#[trigger] all@[k]),
            ),
{
    let ghost a = all@;
    let mut kept: Vec<EntryRecord> = Vec::new();
    proof {
        assert(rms(a.take(0)) =~= Seq::<RecordModel>::empty());
        assert(rms(kept@) =~= Seq::<RecordModel>::empty());
    }
    for r in it: all.into_iter()
        invariant
            it.seq() == a,
            rms(kept@) == keep_real(rms(a.take(it.index() as int))),
    {
        proof {
            assert(rms(a.take(it.index() + 1)).drop_last() =~= rms(a.take(it.index() as int)));
            assert(rms(a.take(it.index() + 1)).last() == rm(r));
        }
        let sc = chars_of(r.source.as_str());
        if !eq_str(&sc, SOURCE_RECOVERED) {
            push_rec(&mut kept, r);
        }
    }
    proof {
        assert(a.take(a.len() as int) =~= a);
    }
    let covered = item_ids_of(&kept);
    let kept_ids = record_ids_of(&kept);
    let mut out: Vec<EntryRecord> = Vec::new();
    let ghost pv = pages@.map_values(|p: PageFile| (p.kind@, p.slug@, p.text@));
    let ghost mv = crate::actions::pms(meta@);
    let mut i: usize = 0;
    proof {
        assert(pv.take(0) =~= Seq::<(Seq<char>, Seq<char>, Seq<char>)>::empty());
        assert(rms(out@) =~= Seq::<RecordModel>::empty());
    }
    while i < pages.len()
        invariant
            0 <= i <= pages.len(),
            pv == pages@.map_values(|p: PageFile| (p.kind@, p.slug@, p.text@)),
            mv == crate::actions::pms(meta@),
            rms(out@) == pages_records(pv.take(i as int), mv, date_fmt@, sv(covered@)),
        decreases pages.len() - i,
    {
        proof {
            assert(pv.take(i + 1).drop_last() =~= pv.take(i as int));
            assert(pv.take(i + 1).last() == (pages@[i as int].kind@, pages@[i as int].slug@, pages@[i as int].text@));
        }
        let pg = &pages[i];
        let sc = chars_of(pg.slug.as_str());
        let (name, scope) = match crate::actions::find_slug_exec(meta, &sc) {
            Some(k) => (meta[k].name.clone(), meta[k].scope.clone()),
            None => (
                match page_title(pg.text.as_str()) {
                    Some(t) => t,
                    None => pg.slug.clone(),
                },
                String::new(),
            ),
        };
        let recs = parse_entity_page(pg.text.as_str(), pg.kind.as_str(), pg.slug.as_str(), name.as_str(), scope.as_str(), date_fmt, &covered);
        append_recs(&mut out, recs);
        i += 1;
    }
    proof {
        assert(pv.take(pages.len() as int) =~= pv);
    }
    let (task_recs, tasks_text, marked) = match tasks {
        Some(t) => recover_tasks(t, date_fmt, &kept_ids, today),
        None => (Vec::new(), None, 0),
    };
    proof {
        assert(rms(Seq::<EntryRecord>::empty()) =~= Seq::<RecordModel>::empty());
    }
    append_recs(&mut out, task_recs);
    match ideas {
        Some(t) => {
            let idea_recs = recover_ideas(t, date_fmt, &kept_ids);
            append_recs(&mut out, idea_recs);
        },
        None => {
            proof {
                assert(rms(out@) + Seq::<RecordModel>::empty() =~= rms(out@));
            }
        },
    }
    let mut skip = item_ids_of(&kept);
    let mut already = item_ids_of(&out);
    let ghost sk = sv(skip@) + sv(already@);
    skip.append(&mut already);
    proof {
        assert(sv(skip@) =~= sk);
    }
    let ghost dv = days@.map_values(|d: DayFile| (d.date@, d.text@));
    let ghost before_days = rms(out@);
    let mut j: usize = 0;
    proof {
        assert(dv.take(0) =~= Seq::<(Seq<char>, Seq<char>)>::empty());
        assert(before_days + Seq::<RecordModel>::empty() =~= before_days);
    }
    while j < days.len()
        invariant
            0 <= j <= days.len(),
            dv == days@.map_values(|d: DayFile| (d.date@, d.text@)),
            rms(out@) == before_days + days_records(dv.take(j as int), sv(skip@)),
        decreases days.len() - j,
    {
        proof {
            assert(dv.take(j + 1).drop_last() =~= dv.take(j as int));
            assert(dv.take(j + 1).last() == (days@[j as int].date@, days@[j as int].text@));
        }
        let d = &days[j];
        if crate::datetime::valid_date(d.date.as_str()).is_ok() {
            let recs = recover_day_notes(d.date.as_str(), d.text.as_str(), &skip);
            append_recs(&mut out, recs);
            proof {
                assert(before_days + days_records(dv.take(j as int), sv(skip@)) + day_note_records(lines(days@[j as int].text@), days@[j as int].date@, sv(skip@))
                    =~= before_days + days_records(dv.take(j + 1), sv(skip@)));
            }
        } else {
            proof {
                assert(days_records(dv.take(j as int), sv(skip@)) + Seq::<RecordModel>::empty() =~= days_records(dv.take(j + 1), sv(skip@)));
            }
        }
        j += 1;
    }
    proof {
        assert(dv.take(days.len() as int) =~= dv);
    }
    let recovered = out.len();
    let kept_count = kept.len();
    let mut merged = kept;
    let ghost mk = rms(merged@);
    append_recs(&mut merged, out);
    let ghost m = merged@;
    let sorted = crate::order::sort_by_key(merged, false);
    proof {
        lemma_rms_multiset(sorted@, m);
        assert forall|k: int|
            0 <= k < a.len() && a[k].source@ != SOURCE_RECOVERED@ implies rms(sorted@).contains(
                rm(#[trigger] a[k]),
            ) by {
            broadcast use vstd::seq_lib::group_to_multiset_ensures;

            lemma_keep_real_has(rms(a), k);
            assert(rms(a)[k] == rm(a[k]));
            let j = choose|j: int| 0 <= j < mk.len() && mk[j] == rm(a[k]);
            assert(rms(m)[j] == rm(a[k]));
            assert(rms(m).contains(rm(a[k])));
            assert(rms(sorted@).to_multiset().count(rm(a[k])) > 0);
        }
    }
    RebuildOutcome {
        records: sorted,
        report: RebuildReport { recovered, kept: kept_count, tasks_marked: marked },
        tasks_text,
    }
}


// ------------------------------------------------------------------ laws

/// A capture-time record is among those a rebuild keeps.
proof fn lemma_keep_real_has(s: Seq<RecordModel>, k: int)
    requires
        0 <= k < s.len(),
        s[k].source != SOURCE_RECOVERED@,
    ensures
        keep_real(s).contains(s[k]),
    decreases s.len(),
{
    if k == s.len() - 1 {
        assert(keep_real(s) == keep_real(s.drop_last()).push(s.last()));
        assert(keep_real(s)[keep_real(s).len() - 1] == s[k]);
    } else {
        lemma_keep_real_has(s.drop_last(), k);
        assert(s.drop_last()[k] == s[k]);
        let j = choose|j: int| 0 <= j < keep_real(s.drop_last()).len() && keep_real(s.drop_last())[j] == s[k];
        if s.last().source != SOURCE_RECOVERED@ {
            assert(keep_real(s)[j] == s[k]);
        }
    }
}

/// Scanning lines `ls` on from state `s`.
pub open spec fn scan_from(s: SecScan, ls: Seq<Seq<char>>) -> SecScan
    decreases ls.len(),
{
    if ls.len() == 0 {
        s
    } else {
        section_step(scan_from(s, ls.drop_last()), ls.last())
    }
}

proof fn lemma_scan_from_split(s: SecScan, a: Seq<Seq<char>>, b: Seq<Seq<char>>)
    ensures
        scan_from(s, a + b) == scan_from(scan_from(s, a), b),
    decreases b.len(),
{
    if b.len() == 0 {
        assert(a + b =~= a);
    } else {
        lemma_scan_from_split(s, a, b.drop_last());
        assert((a + b).drop_last() =~= a + b.drop_last());
        assert((a + b).last() == b.last());
    }
}

proof fn lemma_section_scan_from(ls: Seq<Seq<char>>)
    ensures
        section_scan(ls) == scan_from((0, seq![], seq![], seq![], seq![], seq![]), ls),
    decreases ls.len(),
{
    if ls.len() > 0 {
        lemma_section_scan_from(ls.drop_last());
    }
}

/// A list item that renders as one bullet.
pub open spec fn list_item_ok(i: Seq<char>) -> bool {
    crate::text::clean_line(i) && !is_blank(i)
}

/// A line of prose the reader keeps as prose: not a block label, not a
/// bullet, not a day link, and blank only when empty.
pub open spec fn prose_line(l: Seq<char>) -> bool {
    let t = trim(l);
    &&& t != "**Accomplished**"@
    &&& t != "**Decided**"@
    &&& t != "**Open**"@
    &&& !starts_with(t, "- "@)
    &&& !starts_with(t, "[[days/"@)
    &&& (t.len() == 0 ==> l.len() == 0)
}

pub open spec fn bullet_lines(items: Seq<Seq<char>>) -> Seq<Seq<char>> {
    items.map_values(|i: Seq<char>| "- "@ + trim(i))
}

pub open spec fn trimmed_all(items: Seq<Seq<char>>) -> Seq<Seq<char>> {
    items.map_values(|i: Seq<char>| trim(i))
}

/// The state with list `k` (1, 2 or 3) extended by `xs`, in mode `k`.
pub open spec fn with_list(s: SecScan, k: int, xs: Seq<Seq<char>>) -> SecScan {
    if k == 1 {
        (k, s.1, s.2 + xs, s.3, s.4, s.5)
    } else if k == 2 {
        (k, s.1, s.2, s.3 + xs, s.4, s.5)
    } else {
        (k, s.1, s.2, s.3, s.4 + xs, s.5)
    }
}

proof fn lemma_trimmed_edges(i: Seq<char>)
    requires
        !is_blank(i),
    ensures
        trim(i).len() > 0,
        !crate::text::is_ws(trim(i)[0]),
        !crate::text::is_ws(trim(i).last()),
{
    crate::text::lemma_trim_idempotent(i);
    let t = trim(i);
    if crate::text::is_ws(t[0]) {
        assert(trim_start(t) == trim_start(t.drop_first()));
        crate::text::lemma_trim_start_edges(t.drop_first());
    }
    if crate::text::is_ws(t.last()) {
        assert(crate::text::trim_end(t) == crate::text::trim_end(t.drop_last()));
        crate::text::lemma_trim_end_edges(t.drop_last());
    }
}

proof fn lemma_scan_bullets(s: SecScan, k: int, items: Seq<Seq<char>>)
    requires
        1 <= k <= 3,
        s.0 == k,
        forall|j: int| 0 <= j < items.len() ==> list_item_ok(#[trigger] items[j]),
    ensures
        scan_from(s, bullet_lines(items)) == with_list(s, k, trimmed_all(items)),
    decreases items.len(),
{
    reveal_strlit("- ");
    reveal_strlit("**Accomplished**");
    reveal_strlit("**Decided**");
    reveal_strlit("**Open**");
    if items.len() == 0 {
        assert(bullet_lines(items) =~= Seq::<Seq<char>>::empty());
        assert(trimmed_all(items) =~= Seq::<Seq<char>>::empty());
        assert(s.2 + Seq::<Seq<char>>::empty() =~= s.2);
        assert(s.3 + Seq::<Seq<char>>::empty() =~= s.3);
        assert(s.4 + Seq::<Seq<char>>::empty() =~= s.4);
    } else {
        let front = items.drop_last();
        let it = items.last();
        assert(bullet_lines(items).drop_last() =~= bullet_lines(front));
        assert(trimmed_all(items) =~= trimmed_all(front).push(trim(it)));
        lemma_scan_bullets(s, k, front);
        let line = "- "@ + trim(it);
        assert(bullet_lines(items).last() == line);
        lemma_trimmed_edges(it);
        assert(line[0] == '-');
        assert(line.last() == trim(it).last());
        crate::text::lemma_trim_noop(line);
        assert(line.skip(2) =~= trim(it));
        crate::text::lemma_trim_idempotent(it);
        assert(starts_with(line, "- "@)) by {
            assert(line.take(2) =~= "- "@);
        }
        assert(line != "**Accomplished**"@ && line != "**Decided**"@ && line != "**Open**"@) by {
            assert(line[0] != "**Accomplished**"@[0]);
        }
        let st = with_list(s, k, trimmed_all(front));
        assert(section_step(st, line) == with_list(s, k, trimmed_all(items))) by {
            assert(s.2 + trimmed_all(front).push(trim(it)) =~= (s.2 + trimmed_all(front)).push(trim(it)));
            assert(s.3 + trimmed_all(front).push(trim(it)) =~= (s.3 + trimmed_all(front)).push(trim(it)));
            assert(s.4 + trimmed_all(front).push(trim(it)) =~= (s.4 + trimmed_all(front)).push(trim(it)));
        }
    }
}

proof fn lemma_lines_bullets(items: Seq<Seq<char>>)
    requires
        forall|j: int| 0 <= j < items.len() ==> list_item_ok(#[trigger] items[j]),
    ensures
        lines(spec_bullets(items)) == bullet_lines(items),
        spec_bullets(items).len() == 0 || spec_bullets(items).last() == '\n',
    decreases items.len(),
{
    reveal_strlit("- ");
    reveal_strlit("\n");
    if items.len() == 0 {
        assert(bullet_lines(items) =~= Seq::<Seq<char>>::empty());
    } else {
        let front = items.drop_last();
        let it = items.last();
        lemma_lines_bullets(front);
        let line = "- "@ + trim(it);
        assert(crate::text::clean_line(line)) by {
            assert forall|j: int| 0 <= j < line.len() implies line[j] != '\n' && line[j] != '\r' by {
                if j >= 2 {
                    crate::text::lemma_trim_start_edges(it);
                    crate::text::lemma_trim_end_edges(trim_start(it));
                    crate::text::lemma_trim_start_is_skip(it);
                    assert(line[j] == trim(it)[j - 2]);
                }
            }
        }
        assert(spec_bullets(items) =~= spec_bullets(front) + (line + seq!['\n']));
        crate::text::lemma_lines_concat(spec_bullets(front), line + seq!['\n']);
        crate::text::lemma_lines_one(line);
        assert(bullet_lines(items) =~= bullet_lines(front) + seq![line]);
    }
}


/// The label line of block `k`.
pub open spec fn block_label(k: int) -> Seq<char> {
    if k == 1 {
        "**Accomplished**"@
    } else if k == 2 {
        "**Decided**"@
    } else {
        "**Open**"@
    }
}

proof fn lemma_scan_one(s: SecScan, l: Seq<char>)
    ensures
        scan_from(s, seq![l]) == section_step(s, l),
{
    assert(seq![l].drop_last() =~= Seq::<Seq<char>>::empty());
    assert(scan_from(s, Seq::<Seq<char>>::empty()) == s);
    assert(seq![l].last() == l);
}

proof fn lemma_block(s: SecScan, k: int, items: Seq<Seq<char>>)
    requires
        1 <= k <= 3,
        forall|j: int| 0 <= j < items.len() ==> list_item_ok(#[trigger] items[j]),
    ensures
        ({
            let b = labelled_block(block_label(k) + "\n\n"@, items);
            &&& b.len() == 0 || b.last() == '\n'
            &&& scan_from(s, lines(b)) == if items.len() == 0 {
                s
            } else {
                with_list(s, k, trimmed_all(items))
            }
        }),
{
    reveal_strlit("\n\n");
    reveal_strlit("\n");
    reveal_strlit("**Accomplished**");
    reveal_strlit("**Decided**");
    reveal_strlit("**Open**");
    let lab = block_label(k);
    let b = labelled_block(lab + "\n\n"@, items);
    if items.len() == 0 {
        assert(b =~= Seq::<char>::empty());
        assert(lines(b) == Seq::<Seq<char>>::empty());
    } else {
        let e: Seq<char> = Seq::empty();
        lemma_lines_bullets(items);
        let bul = spec_bullets(items);
        assert(crate::text::clean_line(lab));
        assert(b =~= (lab + seq!['\n']) + (seq!['\n'] + (bul + seq!['\n'])));
        crate::text::lemma_lines_concat(lab + seq!['\n'], seq!['\n'] + (bul + seq!['\n']));
        crate::text::lemma_lines_one(lab);
        crate::text::lemma_lines_concat(seq!['\n'], bul + seq!['\n']);
        assert(e + seq!['\n'] =~= seq!['\n']);
        crate::text::lemma_lines_one(e);
        crate::text::lemma_lines_concat(bul, seq!['\n']);
        let ls = seq![lab] + (seq![e] + (bullet_lines(items) + seq![e]));
        assert(lines(b) == ls);
        // the label
        let s1 = section_step(s, lab);
        assert(trim(lab) == lab) by {
            crate::text::lemma_trim_noop(lab);
        }
        assert(s1 == (k, s.1, s.2, s.3, s.4, s.5));
        // the blank line under it
        let e_line = seq![e];
        assert(trim(e) =~= e);
        assert(section_step(s1, e) == s1);
        lemma_scan_from_split(s, seq![lab], seq![e] + (bullet_lines(items) + seq![e]));
        lemma_scan_one(s, lab);
        lemma_scan_from_split(s1, seq![e], bullet_lines(items) + seq![e]);
        lemma_scan_one(s1, e);
        lemma_scan_from_split(s1, bullet_lines(items), seq![e]);
        lemma_scan_bullets(s1, k, items);
        let s2 = with_list(s1, k, trimmed_all(items));
        lemma_scan_one(s2, e);
        assert(ls =~= seq![lab] + (seq![e] + (bullet_lines(items) + seq![e])));
        assert(s2 == with_list(s, k, trimmed_all(items)));
    }
}

proof fn lemma_scan_prose(s: SecScan, ls: Seq<Seq<char>>)
    requires
        s.1.len() > 0,
        s.0 == 0 || (ls.len() > 0 && trim(ls[0]).len() > 0),
        forall|j: int| 0 <= j < ls.len() ==> prose_line(#[trigger] ls[j]),
    ensures
        scan_from(s, ls) == (if ls.len() == 0 {
            s.0
        } else {
            0
        }, s.1, s.2, s.3, s.4, s.5 + crate::text::lines_nl(ls)),
    decreases ls.len(),
{
    reveal_strlit("\n");
    if ls.len() == 0 {
        assert(crate::text::lines_nl(ls) == Seq::<char>::empty());
        assert(s.5 + Seq::<char>::empty() =~= s.5);
    } else {
        let front = ls.drop_last();
        let l = ls.last();
        if front.len() > 0 {
            assert(front[0] == ls[0]);
            lemma_scan_prose(s, front);
        } else {
            assert(scan_from(s, front) == s);
            assert(crate::text::lines_nl(front) == Seq::<char>::empty());
            assert(s.5 + crate::text::lines_nl(front) =~= s.5);
        }
        assert(prose_line(ls[ls.len() - 1]));
        let st = scan_from(s, front);
        let t = trim(l);
        assert(crate::text::lines_nl(ls) =~= crate::text::lines_nl(front) + l + seq!['\n']);
        if t.len() == 0 {
            assert(l.len() == 0);
            assert(l + seq!['\n'] =~= seq!['\n']);
            if front.len() == 0 {
                assert(ls[0] == l);
            }
            assert(st.0 == 0);
            assert(section_step(st, l).5 =~= st.5.push('\n'));
            assert(s.5 + crate::text::lines_nl(ls) =~= (s.5 + crate::text::lines_nl(front)).push('\n'));
        } else {
            assert(section_step(st, l).5 =~= st.5 + l + "\n"@);
            assert(s.5 + crate::text::lines_nl(ls) =~= (s.5 + crate::text::lines_nl(front)) + l + "\n"@);
        }
    }
}

#[verifier::rlimit(40)]
proof fn lemma_title_part(title: Seq<char>)
    requires
        crate::text::clean_line(title),
        !is_blank(title),
        trim(title) != "Accomplished"@,
        trim(title) != "Decided"@,
        trim(title) != "Open"@,
    ensures
        ({
            let pa = "**"@ + trim(title) + "**\n\n"@;
            &&& pa.last() == '\n'
            &&& scan_from((0, seq![], seq![], seq![], seq![], seq![]), lines(pa)) == (
                0int,
                trim(title),
                Seq::<Seq<char>>::empty(),
                Seq::<Seq<char>>::empty(),
                Seq::<Seq<char>>::empty(),
                seq!['\n'],
            )
        }),
{
    reveal_strlit("**");
    reveal_strlit("**\n\n");
    reveal_strlit("- ");
    reveal_strlit("[[days/");
    reveal_strlit("**Accomplished**");
    reveal_strlit("**Decided**");
    reveal_strlit("**Open**");
    reveal_strlit("Accomplished");
    reveal_strlit("Decided");
    reveal_strlit("Open");
    let e: Seq<char> = Seq::empty();
    let tt = trim(title);
    lemma_trimmed_edges(title);
    let tl = "**"@ + tt + "**"@;
    let pa = "**"@ + tt + "**\n\n"@;
    let s0: SecScan = (0, seq![], seq![], seq![], seq![], seq![]);
    assert(crate::text::clean_line(tl)) by {
        crate::text::lemma_trim_start_is_skip(title);
        crate::text::lemma_trim_end_edges(trim_start(title));
        assert forall|j: int| 0 <= j < tl.len() implies tl[j] != '\n' && tl[j] != '\r' by {
            if 2 <= j < 2 + tt.len() {
                let k = choose|k: int| 0 <= k <= title.len() && trim_start(title) == title.skip(k);
                assert(tl[j] == title[j - 2 + k]);
            }
        }
    }
    assert(pa =~= (tl + seq!['\n']) + seq!['\n']);
    crate::text::lemma_lines_concat(tl + seq!['\n'], seq!['\n']);
    crate::text::lemma_lines_one(tl);
    crate::text::lemma_lines_one(e);
    assert(e + seq!['\n'] =~= seq!['\n']);
    assert(lines(pa) =~= seq![tl] + seq![e]);
    assert(tl[0] == '*' && tl.last() == '*');
    crate::text::lemma_trim_noop(tl);
    assert(tl != "**Accomplished**"@ && tl != "**Decided**"@ && tl != "**Open**"@) by {
        if tl == "**Accomplished**"@ {
            assert(tt =~= tl.subrange(2, tl.len() - 2));
            assert(tt =~= "Accomplished"@);
        }
        if tl == "**Decided**"@ {
            assert(tt =~= tl.subrange(2, tl.len() - 2));
            assert(tt =~= "Decided"@);
        }
        if tl == "**Open**"@ {
            assert(tt =~= tl.subrange(2, tl.len() - 2));
            assert(tt =~= "Open"@);
        }
    }
    assert(!starts_with(tl, "- "@)) by {
        assert(tl.take(2)[0] == '*');
    }
    assert(!starts_with(tl, "[[days/"@)) by {
        if starts_with(tl, "[[days/"@) {
            assert(tl.take(7)[0] == "[[days/"@[0]);
        }
    }
    assert(bold_inner(tl) == Some(tt)) by {
        assert(tl.take(2) =~= "**"@);
        assert(tl.skip(tl.len() - 2) =~= "**"@);
        assert(tl.subrange(2, tl.len() - 2) =~= tt);
    }
    crate::text::lemma_trim_idempotent(title);
    lemma_scan_from_split(s0, seq![tl], seq![e]);
    lemma_scan_one(s0, tl);
    let s1: SecScan = (0, tt, seq![], seq![], seq![], seq![]);
    assert(trim(Seq::<char>::empty()) =~= Seq::<char>::empty());
    assert(section_step(s0, tl) == s1);
    lemma_scan_one(s1, e);
    assert(Seq::<char>::empty().push('\n') =~= seq!['\n']);
}

proof fn lemma_prose_part(sd: SecScan, body: Seq<char>)
    requires
        sd.1.len() > 0,
        sd.5 == seq!['\n'],
        crate::text::no_cr(body),
        forall|j: int| 0 <= j < lines(trim(body)).len() ==> prose_line(#[trigger] lines(trim(body))[j]),
    ensures
        ({
            let pe = if is_blank(body) {
                Seq::<char>::empty()
            } else {
                trim(body) + "\n\n"@
            };
            let se = scan_from(sd, lines(pe));
            &&& pe.len() == 0 || pe.last() == '\n'
            &&& se.1 == sd.1 && se.2 == sd.2 && se.3 == sd.3 && se.4 == sd.4
            &&& trim(se.5) == trim(body)
        }),
{
    reveal_strlit("\n\n");
    reveal_strlit("**Accomplished**");
    reveal_strlit("**Decided**");
    reveal_strlit("**Open**");
    let e: Seq<char> = Seq::empty();
    let tb = trim(body);
    if !is_blank(body) {
        let pe = tb + "\n\n"@;
        lemma_trimmed_edges(body);
        crate::text::lemma_trim_idempotent(body);
        assert(crate::text::no_cr(tb)) by {
            crate::text::lemma_trim_start_is_skip(body);
            crate::text::lemma_trim_end_edges(trim_start(body));
            let k = choose|k: int| 0 <= k <= body.len() && trim_start(body) == body.skip(k);
            assert forall|j: int| 0 <= j < tb.len() implies tb[j] != '\r' by {
                assert(tb[j] == body[j + k]);
            }
        }
        assert(pe =~= (tb + seq!['\n']) + seq!['\n']);
        crate::text::lemma_lines_concat(tb + seq!['\n'], seq!['\n']);
        crate::text::lemma_lines_nl_tail(tb);
        crate::text::lemma_lines_one(e);
        assert(e + seq!['\n'] =~= seq!['\n']);
        let bl = lines(tb);
        assert(lines(pe) =~= bl + seq![e]);
        crate::text::lemma_first_nl(tb);
        assert(first_nl(tb) > 0);
        assert(bl[0] == crate::text::strip_cr(tb.take(first_nl(tb) as int)));
        assert(bl[0][0] == tb[0]);
        crate::text::lemma_solid_line(bl[0]);
        lemma_scan_from_split(sd, bl, seq![e]);
        lemma_scan_prose(sd, bl);
        crate::text::lemma_lines_nl_lines(tb);
        let sp = scan_from(sd, bl);
        assert(sp.0 == 0 && sp.5 == seq!['\n'] + tb + seq!['\n']);
        lemma_scan_one(sp, e);
        assert(trim(e) =~= e);
        let se = section_step(sp, e);
        assert(se.5 == sp.5.push('\n'));
        assert(se.5 =~= seq!['\n'] + tb + seq!['\n', '\n']);
        let rest = se.5;
        assert(trim_start(rest) == trim_start(rest.drop_first()));
        assert(rest.drop_first() =~= tb + seq!['\n', '\n']);
        assert(trim_start(tb + seq!['\n', '\n']) == tb + seq!['\n', '\n']);
        assert(crate::text::trim_end(tb + seq!['\n', '\n']) == crate::text::trim_end(tb + seq!['\n'])) by {
            assert((tb + seq!['\n', '\n']).drop_last() =~= tb + seq!['\n']);
        }
        assert(crate::text::trim_end(tb + seq!['\n']) == crate::text::trim_end(tb)) by {
            assert((tb + seq!['\n']).drop_last() =~= tb);
        }
        crate::text::lemma_trim_noop(tb);
    } else {
        assert(lines(Seq::<char>::empty()) == Seq::<Seq<char>>::empty());
        assert(trim_start(seq!['\n']) == trim_start(seq!['\n'].drop_first()));
        assert(seq!['\n'].drop_first() =~= Seq::<char>::empty());
        assert(trim(seq!['\n']) =~= Seq::<char>::empty());
    }
}

proof fn lemma_day_part(se: SecScan, date: Seq<char>)
    requires
        crate::text::clean_line(date),
    ensures
        ({
            let pf = "[[days/"@ + date + "]]\n"@;
            let sf = scan_from(se, lines(pf));
            &&& pf.last() == '\n'
            &&& sf.1 == se.1 && sf.2 == se.2 && sf.3 == se.3 && sf.4 == se.4 && sf.5 == se.5
        }),
{
    reveal_strlit("[[days/");
    reveal_strlit("]]\n");
    reveal_strlit("]]");
    reveal_strlit("- ");
    reveal_strlit("**Accomplished**");
    reveal_strlit("**Decided**");
    reveal_strlit("**Open**");
    let dl = "[[days/"@ + date + "]]"@;
    let pf = "[[days/"@ + date + "]]\n"@;
    assert(pf =~= dl + seq!['\n']);
    assert(crate::text::clean_line(dl)) by {
        assert forall|j: int| 0 <= j < dl.len() implies dl[j] != '\n' && dl[j] != '\r' by {
            if 7 <= j < 7 + date.len() {
                assert(dl[j] == date[j - 7]);
            }
        }
    }
    crate::text::lemma_lines_one(dl);
    assert(dl[0] == '[' && dl.last() == ']');
    crate::text::lemma_trim_noop(dl);
    assert(starts_with(dl, "[[days/"@)) by {
        assert(dl.take(7) =~= "[[days/"@);
    }
    assert(!starts_with(dl, "- "@)) by {
        assert(dl.take(2)[0] == '[');
    }
    assert(dl != "**Accomplished**"@ && dl != "**Decided**"@ && dl != "**Open**"@) by {
        assert(dl[0] != "**Accomplished**"@[0]);
    }
    lemma_scan_one(se, dl);
}

proof fn lemma_lists_part(sa: SecScan, accomplished: Seq<Seq<char>>, decisions: Seq<Seq<char>>, open: Seq<Seq<char>>)
    requires
        sa.2.len() == 0 && sa.3.len() == 0 && sa.4.len() == 0,
        forall|j: int| 0 <= j < accomplished.len() ==> list_item_ok(#[trigger] accomplished[j]),
        forall|j: int| 0 <= j < decisions.len() ==> list_item_ok(#[trigger] decisions[j]),
        forall|j: int| 0 <= j < open.len() ==> list_item_ok(#[trigger] open[j]),
    ensures
        ({
            let pb = labelled_block("**Accomplished**\n\n"@, accomplished);
            let pc = labelled_block("**Decided**\n\n"@, decisions);
            let pd = labelled_block("**Open**\n\n"@, open);
            let sd = scan_from(scan_from(scan_from(sa, lines(pb)), lines(pc)), lines(pd));
            &&& pb.len() == 0 || pb.last() == '\n'
            &&& pc.len() == 0 || pc.last() == '\n'
            &&& pd.len() == 0 || pd.last() == '\n'
            &&& sd.1 == sa.1 && sd.5 == sa.5
            &&& sd.2 == trimmed_all(accomplished)
            &&& sd.3 == trimmed_all(decisions)
            &&& sd.4 == trimmed_all(open)
        }),
{
    reveal_strlit("\n\n");
    reveal_strlit("**Accomplished**\n\n");
    reveal_strlit("**Decided**\n\n");
    reveal_strlit("**Open**\n\n");
    reveal_strlit("**Accomplished**");
    reveal_strlit("**Decided**");
    reveal_strlit("**Open**");
    assert(block_label(1) + "\n\n"@ =~= "**Accomplished**\n\n"@);
    assert(block_label(2) + "\n\n"@ =~= "**Decided**\n\n"@);
    assert(block_label(3) + "\n\n"@ =~= "**Open**\n\n"@);
    lemma_block(sa, 1, accomplished);
    let sb = scan_from(sa, lines(labelled_block("**Accomplished**\n\n"@, accomplished)));
    lemma_block(sb, 2, decisions);
    let sc = scan_from(sb, lines(labelled_block("**Decided**\n\n"@, decisions)));
    lemma_block(sc, 3, open);
    if accomplished.len() == 0 {
        assert(trimmed_all(accomplished) =~= Seq::<Seq<char>>::empty());
    } else {
        assert(sa.2 + trimmed_all(accomplished) =~= trimmed_all(accomplished));
    }
    if decisions.len() == 0 {
        assert(trimmed_all(decisions) =~= Seq::<Seq<char>>::empty());
    } else {
        assert(sb.3 + trimmed_all(decisions) =~= trimmed_all(decisions));
    }
    if open.len() == 0 {
        assert(trimmed_all(open) =~= Seq::<Seq<char>>::empty());
    } else {
        assert(sc.4 + trimmed_all(open) =~= trimmed_all(open));
    }
}

/// A rendered entity section reads back as what was rendered: its title,
/// its three lists (items trimmed) and its prose (trimmed). This is what
/// lets the index be rebuilt from the pages. It holds when the title is a
/// non-blank line other than a block label, every list item a non-blank
/// line, and the prose free of carriage returns and of lines the reader
/// takes for structure (block labels, bullets, day links, lines of spaces).
pub proof fn law_sections_read_back(
    title: Seq<char>,
    accomplished: Seq<Seq<char>>,
    decisions: Seq<Seq<char>>,
    open: Seq<Seq<char>>,
    body: Seq<char>,
    date: Seq<char>,
)
    requires
        crate::text::clean_line(title),
        !is_blank(title),
        trim(title) != "Accomplished"@,
        trim(title) != "Decided"@,
        trim(title) != "Open"@,
        forall|j: int| 0 <= j < accomplished.len() ==> list_item_ok(#[trigger] accomplished[j]),
        forall|j: int| 0 <= j < decisions.len() ==> list_item_ok(#[trigger] decisions[j]),
        forall|j: int| 0 <= j < open.len() ==> list_item_ok(#[trigger] open[j]),
        crate::text::no_cr(body),
        forall|j: int| 0 <= j < lines(trim(body)).len() ==> prose_line(#[trigger] lines(trim(body))[j]),
        crate::text::clean_line(date),
    ensures
        spec_parse_section_body(spec_render_entity_section(title, accomplished, decisions, open, body, date))
            == (trim(title), trimmed_all(accomplished), trimmed_all(decisions), trimmed_all(open), trim(body)),
{
    reveal_strlit("**");
    reveal_strlit("**\n\n");
    reveal_strlit("\n\n");
    let pa = "**"@ + trim(title) + "**\n\n"@;
    let pb = labelled_block("**Accomplished**\n\n"@, accomplished);
    let pc = labelled_block("**Decided**\n\n"@, decisions);
    let pd = labelled_block("**Open**\n\n"@, open);
    let pe = if is_blank(body) {
        Seq::<char>::empty()
    } else {
        trim(body) + "\n\n"@
    };
    let pf = "[[days/"@ + date + "]]\n"@;
    let r = spec_render_entity_section(title, accomplished, decisions, open, body, date);
    assert(r =~= pa + pb + pc + pd + pe + pf);
    let s0: SecScan = (0, seq![], seq![], seq![], seq![], seq![]);
    lemma_title_part(title);
    let sa = scan_from(s0, lines(pa));
    lemma_lists_part(sa, accomplished, decisions, open);
    let sd = scan_from(scan_from(scan_from(sa, lines(pb)), lines(pc)), lines(pd));
    lemma_prose_part(sd, body);
    let se = scan_from(sd, lines(pe));
    lemma_day_part(se, date);
    let sf = scan_from(se, lines(pf));
    assert((pa + pb).last() == '\n');
    assert((pa + pb + pc).last() == '\n');
    assert((pa + pb + pc + pd).last() == '\n');
    assert((pa + pb + pc + pd + pe).last() == '\n');
    crate::text::lemma_lines_concat(pa, pb);
    crate::text::lemma_lines_concat(pa + pb, pc);
    crate::text::lemma_lines_concat(pa + pb + pc, pd);
    crate::text::lemma_lines_concat(pa + pb + pc + pd, pe);
    crate::text::lemma_lines_concat(pa + pb + pc + pd + pe, pf);
    lemma_section_scan_from(lines(r));
    lemma_scan_from_split(s0, lines(pa), lines(pb));
    lemma_scan_from_split(s0, lines(pa) + lines(pb), lines(pc));
    lemma_scan_from_split(s0, lines(pa) + lines(pb) + lines(pc), lines(pd));
    lemma_scan_from_split(s0, lines(pa) + lines(pb) + lines(pc) + lines(pd), lines(pe));
    lemma_scan_from_split(s0, lines(pa) + lines(pb) + lines(pc) + lines(pd) + lines(pe), lines(pf));
    assert(section_scan(lines(r)) == sf);
}


// ------------------------------------------------------------------ task markers are written once

/// A line that no pass needs to mark: no task, or a task that already
/// carries an id marker.
pub open spec fn task_line_settled(l: Seq<char>) -> bool {
    is_task_line(trim_start(l)) ==> contains(trim_start(l), "<!-- e:"@)
}

/// A task line holds the `] ` a marker is written after.
pub open spec fn task_line_markable(l: Seq<char>) -> bool {
    is_task_line(trim_start(l)) ==> contains(trim_start(l), "] "@)
}

/// The leading whitespace of a line, put before text that starts with no
/// whitespace, trims back to that text.
proof fn lemma_trim_start_prefix(line: Seq<char>, r: Seq<char>)
    requires
        r.len() > 0,
        !crate::text::is_ws(r[0]),
    ensures
        trim_start(line).len() <= line.len(),
        trim_start(line.take(line.len() - trim_start(line).len()) + r) == r,
    decreases line.len(),
{
    if line.len() > 0 && crate::text::is_ws(line[0]) {
        let d = line.drop_first();
        lemma_trim_start_prefix(d, r);
        let pre = line.take(line.len() - trim_start(line).len());
        let x = pre + r;
        assert(x[0] == line[0]);
        assert(x.drop_first() =~= d.take(d.len() - trim_start(d).len()) + r);
    } else {
        assert(line.take(0) + r =~= r);
    }
}

proof fn lemma_trim_start_clean(l: Seq<char>)
    requires
        crate::text::clean_line(l),
    ensures
        crate::text::clean_line(trim_start(l)),
{
    crate::text::lemma_trim_start_is_skip(l);
    let k = choose|k: int| 0 <= k <= l.len() && trim_start(l) == l.skip(k);
    assert forall|j: int| 0 <= j < trim_start(l).len() implies trim_start(l)[j] != '\n' && trim_start(l)[j] != '\r' by {
        assert(trim_start(l)[j] == l[k + j]);
    }
}

/// A line a pass marks is clean and settled.
proof fn lemma_marked_line(line: Seq<char>, n: nat)
    requires
        crate::text::clean_line(line),
        is_task_line(trim_start(line)),
        contains(trim_start(line), "] "@),
        !contains(trim_start(line), "<!-- e:"@),
    ensures
        ({
            let t = trim_start(line);
            let nl = line.take(line.len() - t.len()) + crate::tasks::replace_first(
                t,
                "] "@,
                "] <!-- e:"@ + task_candidate(n) + " --> "@,
            );
            crate::text::clean_line(nl) && task_line_settled(nl)
        }),
{
    reveal_strlit("] ");
    reveal_strlit("] <!-- e:");
    reveal_strlit(" --> ");
    reveal_strlit("<!-- e:");
    reveal_strlit("- [ ]");
    reveal_strlit("- [x]");
    reveal_strlit("- [X]");
    reveal_strlit("recovered-task-");
    let t = trim_start(line);
    lemma_trim_start_clean(line);
    let id = task_candidate(n);
    crate::calendar::lemma_decimal_digits(n);
    let q = "] <!-- e:"@ + id + " --> "@;
    crate::text::lemma_find_props(t, "] "@);
    let i = find(t, "] "@)->0;
    let rebuilt = t.take(i) + q + t.skip(i + 2);
    assert(crate::tasks::replace_first(t, "] "@, q) == rebuilt);
    assert(t.take(5) == "- [ ]"@ || t.take(5) == "- [x]"@ || t.take(5) == "- [X]"@);
    assert(t[0] == t.take(5)[0]);
    assert(t[0] == '-');
    assert(i > 0) by {
        if i == 0 {
            assert(t.subrange(0, 2) == "] "@);
            assert(t[0] == t.subrange(0, 2)[0]);
        }
    }
    assert(rebuilt[0] == '-');
    lemma_trim_start_prefix(line, rebuilt);
    let nl = line.take(line.len() - t.len()) + rebuilt;
    assert(trim_start(nl) == rebuilt);
    assert(occurs_at(rebuilt, "<!-- e:"@, i + 2)) by {
        assert(rebuilt.subrange(i + 2, i + 9) =~= "<!-- e:"@);
    }
    crate::text::lemma_contains_at(rebuilt, "<!-- e:"@, i + 2);
    assert(crate::text::clean_line(nl)) by {
        assert forall|j: int| 0 <= j < nl.len() implies nl[j] != '\n' && nl[j] != '\r' by {
            let pl = line.len() - t.len();
            if j < pl {
                assert(nl[j] == line[j]);
            } else if j < pl + i {
                assert(nl[j] == t[j - pl]);
            } else if j < pl + i + 9 {
                assert(nl[j] == "] <!-- e:"@[j - pl - i]);
            } else if j < pl + i + 9 + id.len() {
                let c = id[j - pl - i - 9];
                assert(nl[j] == c);
                if j - pl - i - 9 >= 15 {
                    assert(c == decimal(n)[j - pl - i - 9 - 15]);
                    assert(crate::calendar::is_digit_char(c));
                } else {
                    assert(c == "recovered-task-"@[j - pl - i - 9]);
                }
            } else if j < pl + i + q.len() {
                assert(nl[j] == " --> "@[j - pl - i - 9 - id.len()]);
            } else {
                assert(nl[j] == t[j - pl - q.len() + 2]);
            }
        }
    }
}

/// What a pass writes back holds clean, settled lines; and a pass that
/// marks nothing found every line settled already.
proof fn lemma_task_scan_settles(ls: Seq<Seq<char>>, fmt: Seq<char>, kept_ids: Seq<Seq<char>>, today: Seq<char>)
    requires
        forall|k: int| 0 <= k < ls.len() ==> crate::text::clean_line(#[trigger] ls[k]) && task_line_markable(ls[k]),
    ensures
        forall|k: int|
            0 <= k < task_scan(ls, fmt, kept_ids, today).1.len() ==> crate::text::clean_line(
                #[trigger] task_scan(ls, fmt, kept_ids, today).1[k],
            ) && task_line_settled(task_scan(ls, fmt, kept_ids, today).1[k]),
        task_scan(ls, fmt, kept_ids, today).4 == 0 ==> forall|k: int| 0 <= k < ls.len() ==> task_line_settled(#[trigger] ls[k]),
    decreases ls.len(),
{
    if ls.len() > 0 {
        let pre = ls.drop_last();
        lemma_task_scan_settles(pre, fmt, kept_ids, today);
        let s0 = task_scan(pre, fmt, kept_ids, today);
        let s = task_scan(ls, fmt, kept_ids, today);
        let line = ls.last();
        let t = trim_start(line);
        assert(crate::text::clean_line(line) && task_line_markable(line));
        if is_task_line(t) && !(spec_marker_id(t) is Some && kept_ids.contains(spec_marker_id(t)->0)) && !contains(t, "<!-- e:"@) {
            assert(spec_marker_id(t) is None);
            let k = fresh_task_number(s0.2, s0.3, s0.2.len() + 1);
            lemma_marked_line(line, k);
            assert(s.1 == s0.1.push(line.take(line.len() - t.len()) + crate::tasks::replace_first(t, "] "@, "] <!-- e:"@ + task_candidate(k) + " --> "@)));
            assert(s.4 == s0.4 + 1);
        } else {
            assert(s.1 == s0.1.push(line));
            assert(s.4 == s0.4);
            assert(task_line_settled(line));
        }
        assert forall|k: int| 0 <= k < s.1.len() implies crate::text::clean_line(#[trigger] s.1[k]) && task_line_settled(s.1[k]) by {
            if k < s0.1.len() {
                assert(s.1[k] == s0.1[k]);
            }
        }
        if s.4 == 0 {
            assert forall|k: int| 0 <= k < ls.len() implies task_line_settled(#[trigger] ls[k]) by {
                if k < pre.len() {
                    assert(ls[k] == pre[k]);
                }
            }
        }
    }
}

/// A pass over settled lines marks none of them.
proof fn lemma_task_scan_settled_marks_none(ls: Seq<Seq<char>>, fmt: Seq<char>, kept_ids: Seq<Seq<char>>, today: Seq<char>)
    requires
        forall|k: int| 0 <= k < ls.len() ==> task_line_settled(#[trigger] ls[k]),
    ensures
        task_scan(ls, fmt, kept_ids, today).4 == 0,
    decreases ls.len(),
{
    if ls.len() > 0 {
        assert forall|k: int| 0 <= k < ls.drop_last().len() implies task_line_settled(#[trigger] ls.drop_last()[k]) by {
            assert(ls.drop_last()[k] == ls[k]);
        }
        lemma_task_scan_settled_marks_none(ls.drop_last(), fmt, kept_ids, today);
        assert(task_line_settled(ls[ls.len() - 1]));
    }
}

/// The lines of the text a pass writes back are among the lines it wrote.
proof fn lemma_marked_text_lines(ls: Seq<Seq<char>>)
    requires
        forall|k: int| 0 <= k < ls.len() ==> crate::text::clean_line(#[trigger] ls[k]) && task_line_settled(ls[k]),
    ensures
        forall|k: int| 0 <= k < lines(marked_text(ls)).len() ==> task_line_settled(#[trigger] lines(marked_text(ls))[k]),
{
    reveal_strlit("\n");
    reveal_strlit("- [ ]");
    reveal_strlit("- [x]");
    reveal_strlit("- [X]");
    let j = crate::text::join(ls, "\n"@);
    if ls.len() == 0 {
        assert(j == Seq::<char>::empty());
        assert(marked_text(ls) =~= seq!['\n']);
        crate::text::lemma_lines_one(Seq::<char>::empty());
        assert(Seq::<char>::empty() + seq!['\n'] =~= seq!['\n']);
        assert(lines(marked_text(ls)) == seq![Seq::<char>::empty()]);
        assert(trim_start(Seq::<char>::empty()) == Seq::<char>::empty());
        assert(task_line_settled(Seq::<char>::empty()));
    } else {
        crate::text::lemma_join_nl(ls);
        crate::text::lemma_lines_nl_roundtrip(ls);
        if ends_with(j, "\n"@) {
            assert(marked_text(ls) == j);
            assert(j.len() > 0 && j.last() == '\n') by {
                assert(j.skip(j.len() - 1) == "\n"@);
                assert(j.last() == j.skip(j.len() - 1)[0]);
            }
            crate::text::lemma_lines_concat(j, "\n"@);
            crate::text::lemma_lines_one(Seq::<char>::empty());
            assert(Seq::<char>::empty() + seq!['\n'] =~= "\n"@);
            assert(lines(j + "\n"@) == ls);
            assert(lines(j) + seq![Seq::<char>::empty()] == ls);
            assert forall|k: int| 0 <= k < lines(j).len() implies task_line_settled(#[trigger] lines(j)[k]) by {
                assert(lines(j)[k] == (lines(j) + seq![Seq::<char>::empty()])[k]);
            }
        } else {
            assert(marked_text(ls) =~= j + "\n"@);
        }
    }
}

/// Task markers are written once: a rebuild marks the legacy task lines of
/// `tasks.md` and writes the text back, and a second rebuild over what the
/// first left there marks none, whatever else the vault then holds. It
/// holds for a `tasks.md` without carriage returns in which every task
/// line holds the `] ` that a marker is written after.
pub proof fn law_task_markers_are_written_once(
    all: Seq<RecordModel>,
    meta: Seq<crate::actions::PM>,
    pages: Seq<(Seq<char>, Seq<char>, Seq<char>)>,
    tasks: Seq<char>,
    ideas: Option<Seq<char>>,
    days: Seq<(Seq<char>, Seq<char>)>,
    fmt: Seq<char>,
    today: Seq<char>,
    all_again: Seq<RecordModel>,
    meta_again: Seq<crate::actions::PM>,
    pages_again: Seq<(Seq<char>, Seq<char>, Seq<char>)>,
    ideas_again: Option<Seq<char>>,
    days_again: Seq<(Seq<char>, Seq<char>)>,
    today_again: Seq<char>,
)
    requires
        crate::text::no_cr(tasks),
        forall|k: int| 0 <= k < lines(tasks).len() ==> task_line_markable(#[trigger] lines(tasks)[k]),
    ensures
        ({
            let first = recovered_part(all, meta, pages, Some(tasks), ideas, days, fmt, today);
            let left = match first.2 {
                Some(t) => t,
                None => tasks,
            };
            recovered_part(all_again, meta_again, pages_again, Some(left), ideas_again, days_again, fmt, today_again).1 == 0
        }),
{
    let first = recovered_part(all, meta, pages, Some(tasks), ideas, days, fmt, today);
    let kept_ids = record_ids(keep_real(all));
    let ls = lines(tasks);
    crate::text::lemma_lines_clean(tasks);
    lemma_task_scan_settles(ls, fmt, kept_ids, today);
    let s = task_scan(ls, fmt, kept_ids, today);
    let kept_again = record_ids(keep_real(all_again));
    if s.4 > 0 {
        assert(first.2 == Some(marked_text(s.1)));
        lemma_marked_text_lines(s.1);
        lemma_task_scan_settled_marks_none(lines(marked_text(s.1)), fmt, kept_again, today_again);
    } else {
        assert(first.2 is None);
        lemma_task_scan_settled_marks_none(ls, fmt, kept_again, today_again);
    }
}


// ------------------------------------------------------------------ rebuilding twice

/// Two lists of ids with the same members.
pub open spec fn same_members(a: Seq<Seq<char>>, b: Seq<Seq<char>>) -> bool {
    forall|x: Seq<char>| a.contains(x) <==> b.contains(x)
}

pub open spec fn is_recovered(r: RecordModel) -> bool {
    r.source == SOURCE_RECOVERED@
}

pub open spec fn all_recovered(s: Seq<RecordModel>) -> bool {
    forall|k: int| 0 <= k < s.len() ==> is_recovered(#[trigger] s[k])
}

proof fn lemma_all_recovered_push(s: Seq<RecordModel>, r: RecordModel)
    requires
        all_recovered(s),
        is_recovered(r),
    ensures
        all_recovered(s.push(r)),
{
    assert forall|k: int| 0 <= k < s.push(r).len() implies is_recovered(#[trigger] s.push(r)[k]) by {
        if k < s.len() {
            assert(s.push(r)[k] == s[k]);
        }
    }
}

proof fn lemma_all_recovered_concat(a: Seq<RecordModel>, b: Seq<RecordModel>)
    requires
        all_recovered(a),
        all_recovered(b),
    ensures
        all_recovered(a + b),
{
    assert forall|k: int| 0 <= k < (a + b).len() implies is_recovered(#[trigger] (a + b)[k]) by {
        if k < a.len() {
            assert((a + b)[k] == a[k]);
        } else {
            assert((a + b)[k] == b[k - a.len()]);
        }
    }
}

proof fn lemma_page_scan_recovered(ls: Seq<Seq<char>>, fmt: Seq<char>, who: PageWho, covered: Seq<Seq<char>>)
    ensures
        all_recovered(page_scan(ls, fmt, who, covered).0),
        all_recovered(page_flush(page_scan(ls, fmt, who, covered), who, covered).0),
    decreases ls.len(),
{
    reveal_strlit("recovered");
    if ls.len() > 0 {
        lemma_page_scan_recovered(ls.drop_last(), fmt, who, covered);
        let s0 = page_scan(ls.drop_last(), fmt, who, covered);
        let f = page_flush(s0, who, covered);
        assert(all_recovered(f.0));
        let s = page_scan(ls, fmt, who, covered);
        assert(s.0 == f.0 || s.0 == s0.0);
        let g = page_flush(s, who, covered);
        if g.0 != s.0 {
            let p = spec_parse_section_body(s.3);
            lemma_all_recovered_push(s.0, g.0.last());
            assert(g.0 == s.0.push(g.0.last()));
        }
    } else {
        let s = page_scan(ls, fmt, who, covered);
        assert(s.0 =~= Seq::<RecordModel>::empty());
    }
}

proof fn lemma_pages_records_recovered(
    pages: Seq<(Seq<char>, Seq<char>, Seq<char>)>,
    meta: Seq<crate::actions::PM>,
    fmt: Seq<char>,
    covered: Seq<Seq<char>>,
)
    ensures
        all_recovered(pages_records(pages, meta, fmt, covered)),
    decreases pages.len(),
{
    if pages.len() > 0 {
        lemma_pages_records_recovered(pages.drop_last(), meta, fmt, covered);
        let p = pages.last();
        lemma_page_scan_recovered(lines(p.2), fmt, page_who(meta, p.0, p.1, p.2), covered);
        lemma_all_recovered_concat(
            pages_records(pages.drop_last(), meta, fmt, covered),
            spec_parse_entity_page(p.2, fmt, page_who(meta, p.0, p.1, p.2), covered),
        );
    } else {
        assert(pages_records(pages, meta, fmt, covered) =~= Seq::<RecordModel>::empty());
    }
}

proof fn lemma_task_scan_recovered(ls: Seq<Seq<char>>, fmt: Seq<char>, kept_ids: Seq<Seq<char>>, today: Seq<char>)
    ensures
        all_recovered(task_scan(ls, fmt, kept_ids, today).0),
        forall|k: int|
            0 <= k < task_scan(ls, fmt, kept_ids, today).0.len() ==> starts_with(
                (#[trigger] task_scan(ls, fmt, kept_ids, today).0[k]).item_id,
                "recovered-tasks-"@,
            ),
    decreases ls.len(),
{
    reveal_strlit("recovered");
    reveal_strlit("recovered-tasks-");
    if ls.len() > 0 {
        lemma_task_scan_recovered(ls.drop_last(), fmt, kept_ids, today);
        let s0 = task_scan(ls.drop_last(), fmt, kept_ids, today);
        let s = task_scan(ls, fmt, kept_ids, today);
        if s.0 != s0.0 {
            let r = s.0.last();
            assert(s.0 == s0.0.push(r));
            lemma_all_recovered_push(s0.0, r);
            let p = spec_parse_task_line(trim_start(ls.last()), fmt, today);
            assert(r.item_id == p.0);
            assert(p.0.take(16) =~= "recovered-tasks-"@);
            assert forall|k: int| 0 <= k < s.0.len() implies starts_with(
                (#[trigger] s.0[k]).item_id,
                "recovered-tasks-"@,
            ) by {
                if k < s0.0.len() {
                    assert(s.0[k] == s0.0[k]);
                }
            }
        }
    } else {
        assert(task_scan(ls, fmt, kept_ids, today).0 =~= Seq::<RecordModel>::empty());
    }
}

proof fn lemma_idea_scan_recovered(ls: Seq<Seq<char>>, fmt: Seq<char>, covered: Seq<Seq<char>>)
    ensures
        all_recovered(idea_scan(ls, fmt, covered).0),
    decreases ls.len(),
{
    reveal_strlit("recovered");
    if ls.len() > 0 {
        lemma_idea_scan_recovered(ls.drop_last(), fmt, covered);
        let s0 = idea_scan(ls.drop_last(), fmt, covered);
        let s = idea_scan(ls, fmt, covered);
        if s.0 != s0.0 {
            assert(s.0 == s0.0.push(s.0.last()));
            lemma_all_recovered_push(s0.0, s.0.last());
        }
    } else {
        assert(idea_scan(ls, fmt, covered).0 =~= Seq::<RecordModel>::empty());
    }
}

proof fn lemma_day_note_records_recovered(ls: Seq<Seq<char>>, date: Seq<char>, skip: Seq<Seq<char>>)
    ensures
        all_recovered(day_note_records(ls, date, skip)),
    decreases ls.len(),
{
    reveal_strlit("recovered");
    if ls.len() > 0 {
        lemma_day_note_records_recovered(ls.drop_last(), date, skip);
        let r0 = day_note_records(ls.drop_last(), date, skip);
        let r = day_note_records(ls, date, skip);
        if r != r0 {
            assert(r == r0.push(r.last()));
            lemma_all_recovered_push(r0, r.last());
        }
    } else {
        assert(day_note_records(ls, date, skip) =~= Seq::<RecordModel>::empty());
    }
}

proof fn lemma_days_records_recovered(days: Seq<(Seq<char>, Seq<char>)>, skip: Seq<Seq<char>>)
    ensures
        all_recovered(days_records(days, skip)),
    decreases days.len(),
{
    if days.len() > 0 {
        lemma_days_records_recovered(days.drop_last(), skip);
        let d = days.last();
        lemma_day_note_records_recovered(lines(d.1), d.0, skip);
        let e: Seq<RecordModel> = seq![];
        assert(all_recovered(e));
        lemma_all_recovered_concat(
            days_records(days.drop_last(), skip),
            if crate::calendar::naive_date_parse(d.0, crate::calendar::pat_iso()) is Some {
                day_note_records(lines(d.1), d.0, skip)
            } else {
                e
            },
        );
    } else {
        assert(days_records(days, skip) =~= Seq::<RecordModel>::empty());
    }
}


proof fn lemma_page_scan_congruent(ls: Seq<Seq<char>>, fmt: Seq<char>, who: PageWho, c1: Seq<Seq<char>>, c2: Seq<Seq<char>>)
    requires
        same_members(c1, c2),
    ensures
        page_scan(ls, fmt, who, c1) == page_scan(ls, fmt, who, c2),
        page_flush(page_scan(ls, fmt, who, c1), who, c1) == page_flush(page_scan(ls, fmt, who, c2), who, c2),
    decreases ls.len(),
{
    if ls.len() > 0 {
        lemma_page_scan_congruent(ls.drop_last(), fmt, who, c1, c2);
        let s0 = page_scan(ls.drop_last(), fmt, who, c1);
        match (s0.1, s0.2) {
            (Some(d), Some(id)) => {
                assert(c1.contains(id) == c2.contains(id));
            },
            _ => {},
        }
    }
    let s = page_scan(ls, fmt, who, c1);
    match (s.1, s.2) {
        (Some(d), Some(id)) => {
            assert(c1.contains(id) == c2.contains(id));
        },
        _ => {},
    }
}

proof fn lemma_pages_records_congruent(
    pages: Seq<(Seq<char>, Seq<char>, Seq<char>)>,
    meta: Seq<crate::actions::PM>,
    fmt: Seq<char>,
    c1: Seq<Seq<char>>,
    c2: Seq<Seq<char>>,
)
    requires
        same_members(c1, c2),
    ensures
        pages_records(pages, meta, fmt, c1) == pages_records(pages, meta, fmt, c2),
    decreases pages.len(),
{
    if pages.len() > 0 {
        lemma_pages_records_congruent(pages.drop_last(), meta, fmt, c1, c2);
        let p = pages.last();
        lemma_page_scan_congruent(lines(p.2), fmt, page_who(meta, p.0, p.1, p.2), c1, c2);
    }
}

proof fn lemma_idea_scan_congruent(ls: Seq<Seq<char>>, fmt: Seq<char>, c1: Seq<Seq<char>>, c2: Seq<Seq<char>>)
    requires
        same_members(c1, c2),
    ensures
        idea_scan(ls, fmt, c1) == idea_scan(ls, fmt, c2),
    decreases ls.len(),
{
    if ls.len() > 0 {
        lemma_idea_scan_congruent(ls.drop_last(), fmt, c1, c2);
        let t = trim(ls.last());
        if spec_marker_id(t) is Some {
            assert(c1.contains(spec_marker_id(t)->0) == c2.contains(spec_marker_id(t)->0));
        }
    }
}

/// The capture a day note's `## ` line names, if it names one.
pub open spec fn day_note_id(l: Seq<char>) -> Option<Seq<char>> {
    if !starts_with(l, "## "@) {
        None
    } else {
        match split_once(l.skip(3), " · "@) {
            None => None,
            Some(a) => match split_once(a.1, " · "@) {
                None => None,
                Some(b) => Some(trim_char(trim(b.0), '`')),
            },
        }
    }
}

proof fn lemma_day_note_records_congruent(ls: Seq<Seq<char>>, date: Seq<char>, s1: Seq<Seq<char>>, s2: Seq<Seq<char>>)
    requires
        forall|k: int|
            0 <= k < ls.len() ==> (day_note_id(#[trigger] ls[k]) matches Some(x) ==> (s1.contains(x) <==> s2.contains(x))),
    ensures
        day_note_records(ls, date, s1) == day_note_records(ls, date, s2),
    decreases ls.len(),
{
    if ls.len() > 0 {
        assert forall|k: int| 0 <= k < ls.drop_last().len() implies (day_note_id(#[trigger] ls.drop_last()[k]) matches Some(x) ==> (s1.contains(x) <==> s2.contains(x))) by {
            assert(ls.drop_last()[k] == ls[k]);
        }
        lemma_day_note_records_congruent(ls.drop_last(), date, s1, s2);
        assert(day_note_id(ls[ls.len() - 1]) == day_note_id(ls.last()));
    }
}

/// The captures the day notes name.
pub open spec fn days_name(days: Seq<(Seq<char>, Seq<char>)>, x: Seq<char>) -> bool {
    exists|d: int, k: int|
        0 <= d < days.len() && 0 <= k < lines(days[d].1).len() && #[trigger] day_note_id(lines(days[d].1)[k]) == Some(x)
}

proof fn lemma_days_records_congruent(days: Seq<(Seq<char>, Seq<char>)>, s1: Seq<Seq<char>>, s2: Seq<Seq<char>>)
    requires
        forall|x: Seq<char>| days_name(days, x) ==> (s1.contains(x) <==> s2.contains(x)),
    ensures
        days_records(days, s1) == days_records(days, s2),
    decreases days.len(),
{
    if days.len() > 0 {
        let dl = days.drop_last();
        assert forall|x: Seq<char>| days_name(dl, x) implies (s1.contains(x) <==> s2.contains(x)) by {
            let (d, k) = choose|d: int, k: int|
                0 <= d < dl.len() && 0 <= k < lines(dl[d].1).len() && #[trigger] day_note_id(lines(dl[d].1)[k]) == Some(x);
            assert(dl[d] == days[d]);
            assert(days_name(days, x));
        }
        lemma_days_records_congruent(dl, s1, s2);
        let last = days.last();
        let ls = lines(last.1);
        assert forall|k: int| 0 <= k < ls.len() implies (day_note_id(#[trigger] ls[k]) matches Some(x) ==> (s1.contains(x) <==> s2.contains(x))) by {
            if day_note_id(ls[k]) is Some {
                let x = day_note_id(ls[k])->0;
                assert(days[days.len() - 1] == last);
                assert(day_note_id(lines(days[days.len() - 1].1)[k]) == Some(x));
                assert(days_name(days, x));
            }
        }
        lemma_day_note_records_congruent(ls, last.0, s1, s2);
    }
}


proof fn lemma_keep_real_contains(s: Seq<RecordModel>)
    ensures
        forall|r: RecordModel|
            #![trigger keep_real(s).contains(r)]
            #![trigger s.contains(r)]
            keep_real(s).contains(r) <==> (s.contains(r) && !is_recovered(r)),
    decreases s.len(),
{
    reveal_strlit("recovered");
    if s.len() > 0 {
        let d = s.drop_last();
        lemma_keep_real_contains(d);
        let k0 = keep_real(d);
        let ks = keep_real(s);
        assert forall|r: RecordModel|
            #![trigger keep_real(s).contains(r)]
            #![trigger s.contains(r)]
            keep_real(s).contains(r) <==> (s.contains(r) && !is_recovered(r)) by {
            assert(k0.contains(r) <==> (d.contains(r) && !is_recovered(r)));
            assert(d.contains(r) ==> s.contains(r)) by {
                if d.contains(r) {
                    let j = choose|j: int| 0 <= j < d.len() && d[j] == r;
                    assert(s[j] == r);
                }
            }
            assert(s.contains(r) ==> d.contains(r) || s.last() == r) by {
                if s.contains(r) {
                    let j = choose|j: int| 0 <= j < s.len() && s[j] == r;
                    if j < d.len() {
                        assert(d[j] == r);
                    }
                }
            }
            if is_recovered(s.last()) {
                assert(ks == k0);
            } else {
                assert(ks == k0.push(s.last()));
                assert(ks.contains(r) <==> (k0.contains(r) || s.last() == r)) by {
                    if ks.contains(r) {
                        let j = choose|j: int| 0 <= j < ks.len() && ks[j] == r;
                        if j < k0.len() {
                            assert(k0[j] == r);
                        }
                    }
                    if k0.contains(r) {
                        let j = choose|j: int| 0 <= j < k0.len() && k0[j] == r;
                        assert(ks[j] == r);
                    }
                    if s.last() == r {
                        assert(ks[k0.len() as int] == r);
                    }
                }
                assert(s.contains(s.last())) by {
                    assert(s[s.len() - 1] == s.last());
                }
            }
        }
    } else {
        assert(keep_real(s) =~= Seq::<RecordModel>::empty());
        assert forall|r: RecordModel| !keep_real(s).contains(r) && !s.contains(r) by {}
    }
}

proof fn lemma_keep_real_concat(a: Seq<RecordModel>, b: Seq<RecordModel>)
    ensures
        keep_real(a + b) == keep_real(a) + keep_real(b),
    decreases b.len(),
{
    if b.len() == 0 {
        assert(a + b =~= a);
        assert(keep_real(a) + keep_real(b) =~= keep_real(a));
    } else {
        lemma_keep_real_concat(a, b.drop_last());
        assert((a + b).drop_last() =~= a + b.drop_last());
        assert((a + b).last() == b.last());
        if is_recovered(b.last()) {
        } else {
            assert(keep_real(a) + keep_real(b.drop_last()).push(b.last()) =~= (keep_real(a) + keep_real(b.drop_last())).push(b.last()));
        }
    }
}

proof fn lemma_keep_real_of_recovered(s: Seq<RecordModel>)
    requires
        all_recovered(s),
    ensures
        keep_real(s) == Seq::<RecordModel>::empty(),
    decreases s.len(),
{
    reveal_strlit("recovered");
    if s.len() > 0 {
        assert forall|k: int| 0 <= k < s.drop_last().len() implies is_recovered(#[trigger] s.drop_last()[k]) by {
            assert(s.drop_last()[k] == s[k]);
        }
        lemma_keep_real_of_recovered(s.drop_last());
        assert(is_recovered(s[s.len() - 1]));
    }
}

proof fn lemma_keep_real_twice(s: Seq<RecordModel>)
    ensures
        keep_real(keep_real(s)) == keep_real(s),
    decreases s.len(),
{
    reveal_strlit("recovered");
    if s.len() > 0 {
        lemma_keep_real_twice(s.drop_last());
        if !is_recovered(s.last()) {
            let k = keep_real(s);
            assert(k.drop_last() =~= keep_real(s.drop_last()));
        }
    }
}

proof fn lemma_keep_real_remove(s: Seq<RecordModel>, k: int)
    requires
        0 <= k < s.len(),
    ensures
        keep_real(s).len() == keep_real(s.remove(k)).len() + (if is_recovered(s[k]) { 0int } else { 1int }),
    decreases s.len(),
{
    reveal_strlit("recovered");
    if k == s.len() - 1 {
        assert(s.remove(k) =~= s.drop_last());
    } else {
        lemma_keep_real_remove(s.drop_last(), k);
        assert(s.remove(k).drop_last() =~= s.drop_last().remove(k));
        assert(s.remove(k).last() == s.last());
        assert(s.drop_last()[k] == s[k]);
    }
}

proof fn lemma_keep_real_len_perm(a: Seq<RecordModel>, b: Seq<RecordModel>)
    requires
        a.to_multiset() == b.to_multiset(),
    ensures
        keep_real(a).len() == keep_real(b).len(),
    decreases a.len(),
{
    broadcast use vstd::seq_lib::group_to_multiset_ensures;
    broadcast use vstd::multiset::group_multiset_axioms;

    reveal_strlit("recovered");
    if a.len() == 0 {
        assert(a.to_multiset().len() == a.len());
        assert(b.to_multiset().len() == b.len());
        assert(b.len() == 0);
        assert(b =~= Seq::<RecordModel>::empty());
    } else {
        let x = a.last();
        let a2 = a.drop_last();
        assert(a2.push(x) =~= a);
        assert(a.to_multiset().count(x) > 0);
        assert(b.contains(x));
        let k = choose|k: int| 0 <= k < b.len() && b[k] == x;
        let b2 = b.remove(k);
        assert(b2.to_multiset() =~= b.to_multiset().remove(x));
        assert(a2.to_multiset() =~= a.to_multiset().remove(x));
        lemma_keep_real_len_perm(a2, b2);
        lemma_keep_real_remove(b, k);
    }
}

/// What a rebuild keeps of its own output: the same capture-time records.
proof fn lemma_rebuilt_keeps(all: Seq<RecordModel>, part: Seq<RecordModel>, out: Seq<RecordModel>)
    requires
        all_recovered(part),
        out.to_multiset() == (keep_real(all) + part).to_multiset(),
    ensures
        keep_real(out).len() == keep_real(all).len(),
        forall|r: RecordModel| keep_real(out).contains(r) <==> keep_real(all).contains(r),
        same_members(record_ids(keep_real(out)), record_ids(keep_real(all))),
        same_members(item_ids(keep_real(out)), item_ids(keep_real(all))),
{
    broadcast use vstd::seq_lib::group_to_multiset_ensures;

    let x = keep_real(all) + part;
    lemma_keep_real_len_perm(out, x);
    lemma_keep_real_concat(keep_real(all), part);
    lemma_keep_real_twice(all);
    lemma_keep_real_of_recovered(part);
    assert(keep_real(x) =~= keep_real(all));
    lemma_keep_real_contains(out);
    lemma_keep_real_contains(all);
    lemma_keep_real_contains(x);
    assert forall|r: RecordModel| keep_real(out).contains(r) <==> keep_real(all).contains(r) by {
        assert(out.contains(r) <==> out.to_multiset().count(r) > 0);
        assert(x.contains(r) <==> x.to_multiset().count(r) > 0);
        assert(keep_real(out).contains(r) <==> (out.contains(r) && !is_recovered(r)));
        assert(keep_real(x).contains(r) <==> (x.contains(r) && !is_recovered(r)));
    }
    let ko = keep_real(out);
    let ka = keep_real(all);
    assert forall|v: Seq<char>| record_ids(ko).contains(v) <==> record_ids(ka).contains(v) by {
        if record_ids(ko).contains(v) {
            let i = choose|i: int| 0 <= i < record_ids(ko).len() && record_ids(ko)[i] == v;
            assert(ko.contains(ko[i]));
            assert(ka.contains(ko[i]));
            let j = choose|j: int| 0 <= j < ka.len() && ka[j] == ko[i];
            assert(record_ids(ka)[j] == v);
        }
        if record_ids(ka).contains(v) {
            let i = choose|i: int| 0 <= i < record_ids(ka).len() && record_ids(ka)[i] == v;
            assert(ka.contains(ka[i]));
            assert(ko.contains(ka[i]));
            let j = choose|j: int| 0 <= j < ko.len() && ko[j] == ka[i];
            assert(record_ids(ko)[j] == v);
        }
    }
    assert forall|v: Seq<char>| item_ids(ko).contains(v) <==> item_ids(ka).contains(v) by {
        if item_ids(ko).contains(v) {
            let i = choose|i: int| 0 <= i < item_ids(ko).len() && item_ids(ko)[i] == v;
            assert(ko.contains(ko[i]));
            assert(ka.contains(ko[i]));
            let j = choose|j: int| 0 <= j < ka.len() && ka[j] == ko[i];
            assert(item_ids(ka)[j] == v);
        }
        if item_ids(ka).contains(v) {
            let i = choose|i: int| 0 <= i < item_ids(ka).len() && item_ids(ka)[i] == v;
            assert(ka.contains(ka[i]));
            assert(ko.contains(ka[i]));
            let j = choose|j: int| 0 <= j < ko.len() && ko[j] == ka[i];
            assert(item_ids(ko)[j] == v);
        }
    }
}


/// A line a pass recovers a task record from.
pub open spec fn yields_task(l: Seq<char>, kept: Seq<Seq<char>>) -> bool {
    let t = trim_start(l);
    is_task_line(t) && !(spec_marker_id(t) is Some && kept.contains(spec_marker_id(t)->0))
}

/// How many task records a pass over these lines recovers.
pub open spec fn task_count(ls: Seq<Seq<char>>, kept: Seq<Seq<char>>) -> nat
    decreases ls.len(),
{
    if ls.len() == 0 {
        0
    } else {
        task_count(ls.drop_last(), kept) + if yields_task(ls.last(), kept) {
            1nat
        } else {
            0nat
        }
    }
}

/// A task line with the marker for `recovered-task-{n}` put in.
pub open spec fn marked_line(line: Seq<char>, n: nat) -> Seq<char> {
    let t = trim_start(line);
    line.take(line.len() - t.len()) + crate::tasks::replace_first(
        t,
        "] "@,
        "] <!-- e:"@ + task_candidate(n) + " --> "@,
    )
}

proof fn lemma_marker_contains(t: Seq<char>)
    ensures
        spec_marker_id(t) is Some ==> contains(t, "<!-- e:"@),
{
}

/// What a pass writes back, line by line: each line as it was, or a line
/// it recovers a record from with its marker put in.
proof fn lemma_task_scan_shape(ls: Seq<Seq<char>>, fmt: Seq<char>, kept: Seq<Seq<char>>, today: Seq<char>)
    ensures
        task_scan(ls, fmt, kept, today).0.len() == task_count(ls, kept),
        task_scan(ls, fmt, kept, today).1.len() == ls.len(),
        forall|k: int|
            0 <= k < ls.len() ==> #[trigger] task_scan(ls, fmt, kept, today).1[k] == ls[k] || (yields_task(ls[k], kept)
                && !contains(trim_start(ls[k]), "<!-- e:"@) && exists|n: nat|
                task_scan(ls, fmt, kept, today).1[k] == #[trigger] marked_line(ls[k], n)),
    decreases ls.len(),
{
    if ls.len() > 0 {
        let pre = ls.drop_last();
        lemma_task_scan_shape(pre, fmt, kept, today);
        let s0 = task_scan(pre, fmt, kept, today);
        let s = task_scan(ls, fmt, kept, today);
        let line = ls.last();
        let t = trim_start(line);
        lemma_marker_contains(t);
        if is_task_line(t) && !(spec_marker_id(t) is Some && kept.contains(spec_marker_id(t)->0)) && !contains(t, "<!-- e:"@) {
            let k = fresh_task_number(s0.2, s0.3, s0.2.len() + 1);
            assert(s.1 == s0.1.push(marked_line(line, k)));
            assert(yields_task(line, kept));
        } else {
            assert(s.1 == s0.1.push(line));
        }
        assert forall|k: int|
            0 <= k < ls.len() implies #[trigger] s.1[k] == ls[k] || (yields_task(ls[k], kept) && !contains(
                trim_start(ls[k]),
                "<!-- e:"@,
            ) && exists|n: nat| s.1[k] == #[trigger] marked_line(ls[k], n)) by {
            if k < pre.len() {
                assert(s.1[k] == s0.1[k]);
                assert(ls[k] == pre[k]);
            } else {
                assert(ls[k] == line);
                if s.1[k] != line {
                    let n = fresh_task_number(s0.2, s0.3, s0.2.len() + 1);
                    assert(s.1[k] == marked_line(ls[k], n));
                }
            }
        }
    }
}

/// A line a pass marked is recovered again by the next, as long as no
/// record it keeps has the marker's id.
proof fn lemma_marked_line_yields(line: Seq<char>, n: nat, kept: Seq<Seq<char>>)
    requires
        crate::text::clean_line(line),
        is_task_line(trim_start(line)),
        contains(trim_start(line), "] "@),
        !contains(trim_start(line), "<!-- e:"@),
        !kept.contains(task_candidate(n)),
    ensures
        yields_task(marked_line(line, n), kept),
{
    reveal_strlit("] ");
    reveal_strlit("] <!-- e:");
    reveal_strlit(" --> ");
    reveal_strlit("<!-- e:");
    reveal_strlit("-->");
    reveal_strlit("- [ ]");
    reveal_strlit("- [x]");
    reveal_strlit("- [X]");
    reveal_strlit("recovered-task-");
    let t = trim_start(line);
    let id = task_candidate(n);
    crate::calendar::lemma_decimal_digits(n);
    let q = "] <!-- e:"@ + id + " --> "@;
    crate::text::lemma_find_props(t, "] "@);
    let i = find(t, "] "@)->0;
    let rebuilt = t.take(i) + q + t.skip(i + 2);
    assert(crate::tasks::replace_first(t, "] "@, q) == rebuilt);
    assert(t.take(5) == "- [ ]"@ || t.take(5) == "- [x]"@ || t.take(5) == "- [X]"@);
    assert(t[0] == t.take(5)[0] && t[1] == t.take(5)[1] && t[2] == t.take(5)[2] && t[3] == t.take(5)[3]);
    assert("- [ ]"@ =~= seq!['-', ' ', '[', ' ', ']']);
    assert("- [x]"@ =~= seq!['-', ' ', '[', 'x', ']']);
    assert("- [X]"@ =~= seq!['-', ' ', '[', 'X', ']']);
    assert(t[0] == '-' && t[1] == ' ' && t[2] == '[');
    assert(t[3] != ']');
    assert(i >= 4) by {
        if i < 4 {
            assert(t.subrange(i, i + 2) == "] "@);
            assert(t[i] == t.subrange(i, i + 2)[0]);
        }
    }
    assert(t[i] == ']') by {
        assert(t[i] == t.subrange(i, i + 2)[0]);
    }
    // the box survives
    assert(rebuilt.take(5) =~= t.take(5)) by {
        assert forall|j: int| 0 <= j < 5 implies rebuilt[j] == t[j] by {
            if j < i {
                assert(rebuilt[j] == t[j]);
            } else {
                assert(j == 4 && i == 4);
                assert(rebuilt[4] == q[0]);
            }
        }
    }
    assert(rebuilt[0] == '-');
    lemma_trim_start_prefix(line, rebuilt);
    let nl = marked_line(line, n);
    assert(nl == line.take(line.len() - t.len()) + rebuilt);
    assert(trim_start(nl) == rebuilt);
    assert(is_task_line(rebuilt)) by {
        assert(starts_with(rebuilt, t.take(5)));
    }
    // the marker reads back
    let m = "<!-- e:"@;
    assert(occurs_at(rebuilt, m, i + 2)) by {
        assert(rebuilt.subrange(i + 2, i + 9) =~= m);
    }
    crate::text::lemma_find_props(t, m);
    assert forall|j: int| 0 <= j < i + 2 implies !occurs_at(rebuilt, m, j) by {
        if occurs_at(rebuilt, m, j) {
            let w = rebuilt.subrange(j, j + 7);
            if j + 7 <= i {
                assert(t.subrange(j, j + 7) =~= w);
                assert(occurs_at(t, m, j));
            } else if j <= i {
                assert(w[i - j] == rebuilt[i]);
                assert(rebuilt[i] == ']');
                assert(m[i - j] != ']');
            } else {
                assert(w[0] == rebuilt[i + 1]);
                assert(rebuilt[i + 1] == ' ');
            }
        }
    }
    crate::text::lemma_find_unique(rebuilt, m, i + 2);
    let rest = rebuilt.skip(i + 9);
    let tail = " --> "@ + t.skip(i + 2);
    assert(rest =~= id + tail);
    let arrow = "-->"@;
    let at: int = id.len() as int + 1;
    assert(occurs_at(rest, arrow, at)) by {
        assert(rest.subrange(at, at + 3) =~= arrow);
    }
    assert forall|j: int| 0 <= j < at implies !occurs_at(rest, arrow, j) by {
        if occurs_at(rest, arrow, j) {
            let w = rest.subrange(j, j + 3);
            assert(w[2] == rest[j + 2]);
            if j + 2 < id.len() {
                assert(rest[j + 2] == id[j + 2]);
                if j + 2 >= 15 {
                    assert(id[j + 2] == decimal(n)[j + 2 - 15]);
                    assert(crate::calendar::is_digit_char(decimal(n)[j + 2 - 15]));
                } else {
                    assert(id[j + 2] == "recovered-task-"@[j + 2]);
                }
            } else if j + 2 == id.len() {
                assert(rest[j + 2] == ' ');
            } else {
                assert(j + 2 == id.len() + 1);
                assert(rest[j + 2] == '-');
            }
        }
    }
    crate::text::lemma_find_unique(rest, arrow, at);
    assert(rest.take(at) =~= id.push(' '));
    assert(id.len() > 0 && id[0] == 'r');
    crate::text::lemma_trim_push_ws(id, ' ');
    assert(crate::text::is_ws(' ')) by {
        assert((' ' as u32) == 32);
    }
    let dl = decimal(n);
    assert(id.last() == dl.last());
    assert(crate::calendar::is_digit_char(dl[dl.len() - 1]));
    crate::text::lemma_trim_noop(id);
    assert(spec_marker_id(rebuilt) == Some(id));
}

proof fn lemma_task_count_pointwise(a: Seq<Seq<char>>, ka: Seq<Seq<char>>, b: Seq<Seq<char>>, kb: Seq<Seq<char>>)
    requires
        a.len() == b.len(),
        forall|k: int| 0 <= k < a.len() ==> yields_task(#[trigger] a[k], ka) == yields_task(b[k], kb),
    ensures
        task_count(a, ka) == task_count(b, kb),
    decreases a.len(),
{
    if a.len() > 0 {
        assert forall|k: int| 0 <= k < a.drop_last().len() implies yields_task(#[trigger] a.drop_last()[k], ka) == yields_task(
            b.drop_last()[k],
            kb,
        ) by {
            assert(a.drop_last()[k] == a[k]);
            assert(b.drop_last()[k] == b[k]);
        }
        lemma_task_count_pointwise(a.drop_last(), ka, b.drop_last(), kb);
        assert(yields_task(a[a.len() - 1], ka) == yields_task(b[b.len() - 1], kb));
    }
}

/// The text a pass writes back holds its lines again (a last empty line
/// aside), so a pass over it counts the same records.
proof fn lemma_marked_text_count(m: Seq<Seq<char>>, kept: Seq<Seq<char>>)
    requires
        forall|k: int| 0 <= k < m.len() ==> crate::text::clean_line(#[trigger] m[k]),
    ensures
        task_count(lines(marked_text(m)), kept) == task_count(m, kept),
{
    reveal_strlit("\n");
    reveal_strlit("- [ ]");
    reveal_strlit("- [x]");
    reveal_strlit("- [X]");
    let e: Seq<char> = Seq::empty();
    assert(!yields_task(e, kept)) by {
        assert(trim_start(e) == e);
    }
    let j = crate::text::join(m, "\n"@);
    if m.len() == 0 {
        assert(j == e);
        assert(marked_text(m) =~= seq!['\n']);
        crate::text::lemma_lines_one(e);
        assert(e + seq!['\n'] =~= seq!['\n']);
        assert(lines(marked_text(m)) == seq![e]);
        assert(seq![e].drop_last() =~= Seq::<Seq<char>>::empty());
        assert(task_count(seq![e], kept) == task_count(Seq::<Seq<char>>::empty(), kept));
    } else {
        crate::text::lemma_join_nl(m);
        crate::text::lemma_lines_nl_roundtrip(m);
        if ends_with(j, "\n"@) {
            assert(marked_text(m) == j);
            assert(j.len() > 0 && j.last() == '\n') by {
                assert(j.skip(j.len() - 1) == "\n"@);
                assert(j.last() == j.skip(j.len() - 1)[0]);
            }
            crate::text::lemma_lines_concat(j, "\n"@);
            crate::text::lemma_lines_one(e);
            assert(e + seq!['\n'] =~= "\n"@);
            assert(lines(j) + seq![e] == m);
            assert((lines(j) + seq![e]).drop_last() =~= lines(j));
            assert(task_count(m, kept) == task_count(lines(j), kept));
        } else {
            assert(marked_text(m) =~= j + "\n"@);
        }
    }
}

proof fn lemma_task_count_congruent(ls: Seq<Seq<char>>, k1: Seq<Seq<char>>, k2: Seq<Seq<char>>)
    requires
        same_members(k1, k2),
    ensures
        task_count(ls, k1) == task_count(ls, k2),
{
    assert forall|k: int| 0 <= k < ls.len() implies yields_task(#[trigger] ls[k], k1) == yields_task(ls[k], k2) by {
        let t = trim_start(ls[k]);
        if spec_marker_id(t) is Some {
            assert(k1.contains(spec_marker_id(t)->0) == k2.contains(spec_marker_id(t)->0));
        }
    }
    lemma_task_count_pointwise(ls, k1, ls, k2);
}


proof fn lemma_contains_concat(p: Seq<Seq<char>>, q: Seq<Seq<char>>, x: Seq<char>)
    ensures
        (p + q).contains(x) <==> (p.contains(x) || q.contains(x)),
{
    if (p + q).contains(x) {
        let i = choose|i: int| 0 <= i < (p + q).len() && (p + q)[i] == x;
        if i < p.len() {
            assert(p[i] == x);
        } else {
            assert(q[i - p.len()] == x);
        }
    }
    if p.contains(x) {
        let i = choose|i: int| 0 <= i < p.len() && p[i] == x;
        assert((p + q)[i] == x);
    }
    if q.contains(x) {
        let i = choose|i: int| 0 <= i < q.len() && q[i] == x;
        assert((p + q)[p.len() + i] == x);
    }
}

proof fn lemma_task_item_ids(ts: Seq<RecordModel>, x: Seq<char>)
    requires
        forall|k: int| 0 <= k < ts.len() ==> starts_with((#[trigger] ts[k]).item_id, "recovered-tasks-"@),
        !starts_with(x, "recovered-tasks-"@),
    ensures
        !item_ids(ts).contains(x),
{
    if item_ids(ts).contains(x) {
        let i = choose|i: int| 0 <= i < item_ids(ts).len() && item_ids(ts)[i] == x;
        assert(ts[i].item_id == x);
    }
}

/// Rebuilding twice recovers as much as rebuilding once: a second rebuild
/// over what the first left (its index and the `tasks.md` it wrote back)
/// keeps as many capture-time records, recovers as many records and marks
/// no task line, whatever day it runs. It holds for a `tasks.md` without
/// carriage returns whose task lines each hold the `] ` a marker goes
/// after, when no capture-time record has an id of the form a recovered
/// task is given (`recovered-task-…`) and no day note names a capture of
/// the form recovered tasks are filed under (`recovered-tasks-…`).
pub proof fn law_rebuilding_twice_recovers_as_many(
    all: Seq<RecordModel>,
    meta: Seq<crate::actions::PM>,
    pages: Seq<(Seq<char>, Seq<char>, Seq<char>)>,
    tasks: Seq<char>,
    ideas: Option<Seq<char>>,
    days: Seq<(Seq<char>, Seq<char>)>,
    fmt: Seq<char>,
    today: Seq<char>,
    out: Seq<RecordModel>,
    today_again: Seq<char>,
)
    requires
        crate::text::no_cr(tasks),
        forall|k: int| 0 <= k < lines(tasks).len() ==> task_line_markable(#[trigger] lines(tasks)[k]),
        forall|k: int| 0 <= k < keep_real(all).len() ==> !starts_with((#[trigger] keep_real(all)[k]).id, "recovered-task-"@),
        forall|x: Seq<char>| days_name(days, x) ==> !starts_with(x, "recovered-tasks-"@),
        out.to_multiset() == (keep_real(all) + recovered_part(all, meta, pages, Some(tasks), ideas, days, fmt, today).0).to_multiset(),
    ensures
        ({
            let first = recovered_part(all, meta, pages, Some(tasks), ideas, days, fmt, today);
            let left = match first.2 {
                Some(t) => t,
                None => tasks,
            };
            let second = recovered_part(out, meta, pages, Some(left), ideas, days, fmt, today_again);
            &&& keep_real(out).len() == keep_real(all).len()
            &&& second.0.len() == first.0.len()
            &&& second.1 == 0
        }),
{
    reveal_strlit("recovered-task-");
    let first = recovered_part(all, meta, pages, Some(tasks), ideas, days, fmt, today);
    let left = match first.2 {
        Some(t) => t,
        None => tasks,
    };
    // what the first pass did
    let ka = keep_real(all);
    let cov1 = item_ids(ka);
    let kid1 = record_ids(ka);
    let a1 = pages_records(pages, meta, fmt, cov1);
    let ls = lines(tasks);
    let ts1 = task_scan(ls, fmt, kid1, today);
    let i1: Seq<RecordModel> = match ideas {
        Some(t) => idea_scan(lines(t), fmt, kid1).0,
        None => seq![],
    };
    let c1 = a1 + ts1.0 + i1;
    let d1 = days_records(days, cov1 + item_ids(c1));
    assert(first.0 == c1 + d1);
    lemma_pages_records_recovered(pages, meta, fmt, cov1);
    lemma_task_scan_recovered(ls, fmt, kid1, today);
    match ideas {
        Some(t) => lemma_idea_scan_recovered(lines(t), fmt, kid1),
        None => {},
    }
    assert(all_recovered(i1));
    lemma_days_records_recovered(days, cov1 + item_ids(c1));
    lemma_all_recovered_concat(a1, ts1.0);
    lemma_all_recovered_concat(a1 + ts1.0, i1);
    lemma_all_recovered_concat(c1, d1);
    lemma_rebuilt_keeps(all, first.0, out);
    // what the second pass does
    let ko = keep_real(out);
    let cov2 = item_ids(ko);
    let kid2 = record_ids(ko);
    law_task_markers_are_written_once(all, meta, pages, tasks, ideas, days, fmt, today, out, meta, pages, ideas, days, today_again);
    lemma_pages_records_congruent(pages, meta, fmt, cov2, cov1);
    let a2 = pages_records(pages, meta, fmt, cov2);
    assert(a2 == a1);
    let i2: Seq<RecordModel> = match ideas {
        Some(t) => idea_scan(lines(t), fmt, kid2).0,
        None => seq![],
    };
    match ideas {
        Some(t) => lemma_idea_scan_congruent(lines(t), fmt, kid2, kid1),
        None => {},
    }
    assert(i2 == i1);
    let ls2 = lines(left);
    let ts2 = task_scan(ls2, fmt, kid2, today_again);
    lemma_task_scan_shape(ls2, fmt, kid2, today_again);
    lemma_task_scan_shape(ls, fmt, kid1, today);
    crate::text::lemma_lines_clean(tasks);
    lemma_task_scan_settles(ls, fmt, kid1, today);
    // no record the second pass keeps has the id of a marker the first wrote
    assert forall|n: nat| !kid2.contains(#[trigger] task_candidate(n)) by {
        if kid2.contains(task_candidate(n)) {
            assert(kid1.contains(task_candidate(n)));
            let i = choose|i: int| 0 <= i < kid1.len() && kid1[i] == task_candidate(n);
            assert(ka[i].id == task_candidate(n));
            assert(task_candidate(n).take(15) =~= "recovered-task-"@);
        }
    }
    if ts1.4 > 0 {
        assert(left == marked_text(ts1.1));
        lemma_marked_text_count(ts1.1, kid2);
        assert forall|k: int| 0 <= k < ts1.1.len() implies yields_task(#[trigger] ts1.1[k], kid2) == yields_task(ls[k], kid1) by {
            let t = trim_start(ls[k]);
            if spec_marker_id(t) is Some {
                assert(kid1.contains(spec_marker_id(t)->0) == kid2.contains(spec_marker_id(t)->0));
            }
            if ts1.1[k] != ls[k] {
                let n = choose|n: nat| ts1.1[k] == #[trigger] marked_line(ls[k], n);
                assert(crate::text::clean_line(ls[k]) && task_line_markable(ls[k]));
                lemma_marked_line_yields(ls[k], n, kid2);
            }
        }
        lemma_task_count_pointwise(ts1.1, kid2, ls, kid1);
    } else {
        assert(left == tasks);
        lemma_task_count_congruent(ls, kid2, kid1);
    }
    assert(ts2.0.len() == ts1.0.len());
    // the day notes are read against the same captures
    let c2 = a2 + ts2.0 + i2;
    lemma_task_scan_recovered(ls2, fmt, kid2, today_again);
    assert(item_ids(c1) =~= item_ids(a1) + item_ids(ts1.0) + item_ids(i1));
    assert(item_ids(c2) =~= item_ids(a2) + item_ids(ts2.0) + item_ids(i2));
    assert forall|x: Seq<char>| days_name(days, x) implies ((cov2 + item_ids(c2)).contains(x) <==> (cov1 + item_ids(c1)).contains(x)) by {
        lemma_contains_concat(cov2, item_ids(c2), x);
        lemma_contains_concat(cov1, item_ids(c1), x);
        lemma_contains_concat(item_ids(a1) + item_ids(ts1.0), item_ids(i1), x);
        lemma_contains_concat(item_ids(a1), item_ids(ts1.0), x);
        lemma_contains_concat(item_ids(a2) + item_ids(ts2.0), item_ids(i2), x);
        lemma_contains_concat(item_ids(a2), item_ids(ts2.0), x);
        lemma_task_item_ids(ts1.0, x);
        lemma_task_item_ids(ts2.0, x);
    }
    lemma_days_records_congruent(days, cov2 + item_ids(c2), cov1 + item_ids(c1));
    let second = recovered_part(out, meta, pages, Some(left), ideas, days, fmt, today_again);
    assert(second.0 == c2 + days_records(days, cov2 + item_ids(c2)));
}


/// A legacy task line `- [ ] ({scope}) {rest}`, as `format_task_line`
/// writes one without its marker.
pub open spec fn scoped_task_line(scope: Seq<char>, rest: Seq<char>) -> Seq<char> {
    "- [ ] ("@ + scope + ") "@ + rest
}

proof fn lemma_scoped_line_scope(sc: Seq<char>, rest: Seq<char>, fmt: Seq<char>, today: Seq<char>)
    requires
        forall|j: int| 0 <= j < sc.len() ==> sc[j] != ')',
    ensures
        spec_parse_task_line(scoped_task_line(sc, rest), fmt, today).1 == trim(sc),
{
    reveal_strlit("- [ ] (");
    reveal_strlit(") ");
    reveal_strlit("- [ ]");
    reveal_strlit("- [x]");
    reveal_strlit("- [X]");
    reveal_strlit(")");
    reveal_strlit("(");
    let line = scoped_task_line(sc, rest);
    let c = sc.len() as int + 1;
    let x = line.skip(5);
    assert(line.take(5) =~= "- [ ]"@);
    assert(x[0] == ' ');
    assert(!(x.len() >= 5 && x.take(5) == "- [ ]"@)) by {
        if x.len() >= 5 && x.take(5) == "- [ ]"@ {
            assert(x.take(5)[0] == '-');
        }
    }
    assert(crate::names::trim_start_all(x, "- [ ]"@) == x);
    assert(crate::names::trim_start_all(line, "- [ ]"@) == x);
    assert(!(x.len() >= 5 && x.take(5) == "- [x]"@)) by {
        if x.len() >= 5 && x.take(5) == "- [x]"@ {
            assert(x.take(5)[0] == '-');
        }
    }
    assert(crate::names::trim_start_all(x, "- [x]"@) == x);
    assert(!(x.len() >= 5 && x.take(5) == "- [X]"@)) by {
        if x.len() >= 5 && x.take(5) == "- [X]"@ {
            assert(x.take(5)[0] == '-');
        }
    }
    assert(crate::names::trim_start_all(x, "- [X]"@) == x);
    assert(strip_box(line) == x);
    let y = x.drop_first();
    assert(y =~= "("@ + sc + ") "@ + rest);
    assert(crate::text::is_ws(x[0]));
    assert(trim_start(x) == trim_start(y));
    assert(y[0] == '(');
    crate::text::lemma_solid_line(y);
    assert(y[c] == ')');
    crate::text::lemma_trim_end_keeps(y, c);
    crate::text::lemma_trim_end_edges(y);
    let body = trim(x);
    assert(body == crate::text::trim_end(y));
    assert(body == y.take(body.len() as int));
    assert(body.len() > c);
    assert(body[0] == '(');
    assert(body[c] == ')');
    assert forall|j: int| 1 <= j < c implies body[j] == sc[j - 1] by {
        assert(body[j] == y[j]);
    }
    assert(body.subrange(c, c + 1) =~= ")"@);
    assert(occurs_at(body, ")"@, c));
    crate::text::lemma_find_props(body, ")"@);
    match find(body, ")"@) {
        Some(k) => {
            if k < c {
                assert(occurs_at(body, ")"@, k));
                assert(body.subrange(k, k + 1)[0] == body[k]);
                if k >= 1 {
                    assert(body[k] == sc[k - 1]);
                }
            }
            assert(!(c < k));
            assert(k == c);
        },
        None => {
            assert(!occurs_at(body, ")"@, c));
        },
    }
    assert(body.take(1) =~= "("@);
    assert(body.subrange(1, c) =~= sc);
}

/// A read gives back the scope the write wrote: a task line `- [ ] ({scope})
/// {rest}` without a kept marker is recovered by the rebuild as a new task
/// record whose scope is the one in the parentheses, trimmed (when it is
/// not blank; a line without one falls back to `personal`).
pub proof fn law_recovered_task_keeps_its_scope(
    s: TaskScan,
    sc: Seq<char>,
    rest: Seq<char>,
    fmt: Seq<char>,
    kept_ids: Seq<Seq<char>>,
    today: Seq<char>,
)
    requires
        forall|j: int| 0 <= j < sc.len() ==> sc[j] != ')',
        !is_blank(sc),
        !(spec_marker_id(scoped_task_line(sc, rest)) is Some && kept_ids.contains(
            spec_marker_id(scoped_task_line(sc, rest))->0,
        )),
    ensures
        ({
            let out = task_step(s, scoped_task_line(sc, rest), fmt, kept_ids, today).0;
            &&& out.len() == s.0.len() + 1
            &&& out.last().scope == trim(sc)
            &&& out.last().kind == "task"@
            &&& out.drop_last() == s.0
        }),
{
    reveal_strlit("- [ ] (");
    reveal_strlit("- [ ]");
    let line = scoped_task_line(sc, rest);
    assert(line[0] == '-');
    crate::text::lemma_solid_line(line);
    assert(trim_start(line) == line);
    assert(line.take(5) =~= "- [ ]"@);
    assert(is_task_line(line));
    lemma_scoped_line_scope(sc, rest, fmt, today);
    assert(trim(sc).len() > 0);
    let out = task_step(s, line, fmt, kept_ids, today).0;
    assert(out.drop_last() =~= s.0);
}


proof fn lemma_find_first(s: Seq<char>, p: Seq<char>, c: int)
    requires
        occurs_at(s, p, c),
        forall|q: int| 0 <= q < c ==> !occurs_at(s, p, q),
    ensures
        find(s, p) == Some(c),
{
    crate::text::lemma_find_props(s, p);
    match find(s, p) {
        Some(k) => {
            if k < c {
                assert(!occurs_at(s, p, k));
            }
            assert(!(c < k));
        },
        None => {
            assert(!occurs_at(s, p, c));
        },
    }
}

proof fn lemma_trim_solid_ends(x: Seq<char>)
    requires
        x.len() > 0,
        !crate::text::is_ws(x[0]),
        !crate::text::is_ws(x.last()),
    ensures
        trim(x) == x,
{
    crate::text::lemma_solid_line(x);
    assert(crate::text::trim_end(x) == x);
}

proof fn lemma_split_time(ft: Seq<char>, w: Seq<char>)
    requires
        forall|j: int| 0 <= j < ft.len() ==> ft[j] != '*',
    ensures
        split_once(ft + "**"@ + w, "**"@) == Some((ft, w)),
{
    reveal_strlit("**");
    let u = ft + "**"@ + w;
    let f = ft.len() as int;
    assert(u.subrange(f, f + 2) =~= "**"@);
    assert forall|q: int| 0 <= q < f implies !occurs_at(u, "**"@, q) by {
        if occurs_at(u, "**"@, q) {
            assert(u.subrange(q, q + 2)[0] == u[q]);
            assert(u[q] == ft[q]);
        }
    }
    lemma_find_first(u, "**"@, f);
    assert(u.take(f) =~= ft);
    assert(u.skip(f + 2) =~= w);
}

proof fn lemma_marker_skip(id: Seq<char>, w: Seq<char>)
    requires
        forall|j: int| 0 <= j < id.len() ==> id[j] != '>',
    ensures
        find("<!-- e:"@ + id + " -->"@ + w, "-->"@) == Some(8 + id.len() as int),
        ("<!-- e:"@ + id + " -->"@ + w).skip(11 + id.len() as int) == w,
        starts_with("<!-- e:"@ + id + " -->"@ + w, "<!--"@),
{
    reveal_strlit("<!-- e:");
    reveal_strlit(" -->");
    reveal_strlit("-->");
    reveal_strlit("<!--");
    let b = "<!-- e:"@ + id + " -->"@ + w;
    let a = 8 + id.len() as int;
    assert(b.subrange(a, a + 3) =~= "-->"@);
    assert forall|q: int| 0 <= q < a implies !occurs_at(b, "-->"@, q) by {
        if occurs_at(b, "-->"@, q) {
            assert(b.subrange(q, q + 3)[2] == b[q + 2]);
            if q + 2 >= 7 && q + 2 < 7 + id.len() {
                assert(b[q + 2] == id[q + 2 - 7]);
            }
        }
    }
    lemma_find_first(b, "-->"@, a);
    assert(b.skip(a + 3) =~= w);
    assert(b.take(4) =~= "<!--"@);
}

proof fn lemma_paren_scope(sc: Seq<char>, z: Seq<char>)
    requires
        forall|j: int| 0 <= j < sc.len() ==> sc[j] != ')',
    ensures
        find("("@ + sc + ")"@ + z, ")"@) == Some(1 + sc.len() as int),
        ("("@ + sc + ")"@ + z).subrange(1, 1 + sc.len() as int) == sc,
        starts_with("("@ + sc + ")"@ + z, "("@),
{
    reveal_strlit("(");
    reveal_strlit(")");
    let b = "("@ + sc + ")"@ + z;
    let c = 1 + sc.len() as int;
    assert(b.subrange(c, c + 1) =~= ")"@);
    assert forall|q: int| 0 <= q < c implies !occurs_at(b, ")"@, q) by {
        if occurs_at(b, ")"@, q) {
            assert(b.subrange(q, q + 1)[0] == b[q]);
            if q >= 1 {
                assert(b[q] == sc[q - 1]);
            }
        }
    }
    lemma_find_first(b, ")"@, c);
    assert(b.subrange(1, c) =~= sc);
    assert(b.take(1) =~= "("@);
}

proof fn lemma_trim_lead_space(x: Seq<char>)
    requires
        x.len() > 0,
        !crate::text::is_ws(x[0]),
        !crate::text::is_ws(x.last()),
    ensures
        trim(seq![' '] + x) == x,
{
    let y = seq![' '] + x;
    assert(y.drop_first() =~= x);
    assert(crate::text::trim_start(y) == crate::text::trim_start(x));
    lemma_trim_solid_ends(x);
}

/// The fields of a line `- **{time}** <!-- e:{id} --> ({scope})…`.
proof fn lemma_idea_fields_of(ft: Seq<char>, id: Seq<char>, sc: Seq<char>, z: Seq<char>)
    requires
        forall|j: int| 0 <= j < ft.len() ==> ft[j] != '*',
        forall|j: int| 0 <= j < id.len() ==> id[j] != '>',
        forall|j: int| 0 <= j < sc.len() ==> sc[j] != ')',
        z.len() == 0 || !crate::text::is_ws(z.last()),
    ensures
        idea_fields("- **"@ + ft + "** <!-- e:"@ + id + " --> ("@ + sc + ")"@ + z).0 == trim(ft),
        idea_fields("- **"@ + ft + "** <!-- e:"@ + id + " --> ("@ + sc + ")"@ + z).1 == trim(sc),
{
    reveal_strlit("- **");
    reveal_strlit("** <!-- e:");
    reveal_strlit(" --> (");
    reveal_strlit("**");
    reveal_strlit("<!-- e:");
    reveal_strlit(" -->");
    reveal_strlit("(");
    reveal_strlit(")");
    let z3 = "("@ + sc + ")"@ + z;
    let z2 = "<!-- e:"@ + id + " -->"@ + (seq![' '] + z3);
    let z1 = seq![' '] + z2;
    let t = "- **"@ + ft + "** <!-- e:"@ + id + " --> ("@ + sc + ")"@ + z;
    assert(t.skip(2) =~= "**"@ + (ft + "**"@ + z1));
    let b0 = t.skip(2);
    assert(z3.len() > 0 && !crate::text::is_ws(z3.last()));
    assert(z1.last() == z3.last());
    assert(b0.last() == z3.last());
    assert(b0[0] == '*');
    lemma_trim_solid_ends(b0);
    assert(b0.take(2) =~= "**"@);
    assert(b0.skip(2) =~= ft + "**"@ + z1);
    lemma_split_time(ft, z1);
    assert(z2[0] == '<');
    assert(z2.last() == z3.last());
    lemma_trim_lead_space(z2);
    lemma_marker_skip(id, seq![' '] + z3);
    assert(z3[0] == '(');
    lemma_trim_lead_space(z3);
    lemma_paren_scope(sc, z);
}

/// An idea bullet, read back by the rebuild, gives back the time it was
/// written with and the scope in its parentheses (both trimmed): the line
/// `- **{time}** <!-- e:{id} --> ({scope}) {text}` names its own fields,
/// provided the displayed time holds no `*`, the id no `>` and the scope
/// no `)`.
pub proof fn law_idea_bullet_reads_back(
    time: Seq<char>,
    time_fmt: Seq<char>,
    entry_id: Seq<char>,
    scope: Seq<char>,
    text: Seq<char>,
    link: Option<Seq<char>>,
)
    requires
        forall|j: int|
            0 <= j < crate::datetime::spec_format_time(time, time_fmt).len() ==> crate::datetime::spec_format_time(
                time,
                time_fmt,
            )[j] != '*',
        forall|j: int| 0 <= j < entry_id.len() ==> entry_id[j] != '>',
        forall|j: int| 0 <= j < scope.len() ==> scope[j] != ')',
    ensures
        ({
            let l = crate::ideas::idea_bullet(time, time_fmt, entry_id, scope, text, link).drop_last();
            &&& idea_fields(trim(l)).0 == trim(crate::datetime::spec_format_time(time, time_fmt))
            &&& idea_fields(trim(l)).1 == trim(scope)
        }),
{
    reveal_strlit("- **");
    reveal_strlit("** <!-- e:");
    reveal_strlit(" --> (");
    reveal_strlit(") ");
    reveal_strlit(")");
    reveal_strlit("\n");
    let ft = crate::datetime::spec_format_time(time, time_fmt);
    let rest = trim(text) + crate::tasks::link_bit(link);
    let head = "- **"@ + ft + "** <!-- e:"@ + entry_id + " --> ("@ + scope + ")"@;
    let l = head + (seq![' '] + rest);
    assert(crate::ideas::idea_bullet(time, time_fmt, entry_id, scope, text, link) =~= l + "\n"@);
    assert(crate::ideas::idea_bullet(time, time_fmt, entry_id, scope, text, link).drop_last() =~= l);
    let c = head.len() - 1;
    assert(l[c] == ')');
    assert(l[0] == '-');
    crate::text::lemma_solid_line(l);
    crate::text::lemma_trim_end_keeps(l, c);
    crate::text::lemma_trim_end_edges(l);
    let t = trim(l);
    assert(t == crate::text::trim_end(l));
    assert(t == l.take(t.len() as int));
    assert(t.len() > c);
    let z = t.skip(head.len() as int);
    assert(t =~= head + z);
    if z.len() > 0 {
        assert(z.last() == t.last());
    }
    lemma_idea_fields_of(ft, entry_id, scope, z);
}


proof fn lemma_task_body(sc: Seq<char>, rest: Seq<char>)
    requires
        rest.len() > 0,
        !crate::text::is_ws(rest.last()),
    ensures
        trim(strip_box(scoped_task_line(sc, rest))) == "("@ + sc + ")"@ + (seq![' '] + rest),
{
    reveal_strlit("- [ ] (");
    reveal_strlit(") ");
    reveal_strlit("- [ ]");
    reveal_strlit("- [x]");
    reveal_strlit("- [X]");
    reveal_strlit("(");
    reveal_strlit(")");
    let line = scoped_task_line(sc, rest);
    let x = line.skip(5);
    assert(line.take(5) =~= "- [ ]"@);
    assert(x[0] == ' ');
    assert(!(x.len() >= 5 && x.take(5) == "- [ ]"@)) by {
        if x.len() >= 5 && x.take(5) == "- [ ]"@ {
            assert(x.take(5)[0] == '-');
        }
    }
    assert(crate::names::trim_start_all(x, "- [ ]"@) == x);
    assert(crate::names::trim_start_all(line, "- [ ]"@) == x);
    assert(!(x.len() >= 5 && x.take(5) == "- [x]"@)) by {
        if x.len() >= 5 && x.take(5) == "- [x]"@ {
            assert(x.take(5)[0] == '-');
        }
    }
    assert(crate::names::trim_start_all(x, "- [x]"@) == x);
    assert(!(x.len() >= 5 && x.take(5) == "- [X]"@)) by {
        if x.len() >= 5 && x.take(5) == "- [X]"@ {
            assert(x.take(5)[0] == '-');
        }
    }
    assert(crate::names::trim_start_all(x, "- [X]"@) == x);
    assert(strip_box(line) == x);
    let y = "("@ + sc + ")"@ + (seq![' '] + rest);
    assert(x =~= seq![' '] + y);
    assert(y[0] == '(');
    assert(y.last() == rest.last());
    lemma_trim_lead_space(y);
}

/// A read gives back the text the write wrote: a task line `- [ ]
/// ({scope}) {text} — captured {date}` without a kept marker is recovered
/// as a task record whose title is the text, trimmed, and whose scope is
/// the one in the parentheses, provided the text holds no `—` or `·` (the
/// separators of the line's later parts) and the scope no `)`.
pub proof fn law_recovered_task_keeps_its_text(
    s: TaskScan,
    sc: Seq<char>,
    x: Seq<char>,
    d: Seq<char>,
    fmt: Seq<char>,
    kept_ids: Seq<Seq<char>>,
    today: Seq<char>,
)
    requires
        forall|j: int| 0 <= j < sc.len() ==> sc[j] != ')',
        !is_blank(sc),
        x.len() > 0,
        !crate::text::is_ws(x[0]),
        forall|j: int| 0 <= j < x.len() ==> x[j] != '—' && x[j] != '·',
        d.len() > 0,
        !crate::text::is_ws(d.last()),
        !(spec_marker_id(scoped_task_line(sc, x + " — captured "@ + d)) is Some && kept_ids.contains(
            spec_marker_id(scoped_task_line(sc, x + " — captured "@ + d))->0,
        )),
    ensures
        ({
            let out = task_step(s, scoped_task_line(sc, x + " — captured "@ + d), fmt, kept_ids, today).0;
            &&& out.len() == s.0.len() + 1
            &&& out.last().title == trim(x)
            &&& out.last().scope == trim(sc)
            &&& out.last().kind == "task"@
        }),
{
    reveal_strlit(" — captured ");
    reveal_strlit(" · [[");
    reveal_strlit(")");
    let sep = " — captured "@;
    let rest = x + sep + d;
    assert(rest.last() == d.last());
    law_recovered_task_keeps_its_scope(s, sc, rest, fmt, kept_ids, today);
    lemma_task_body(sc, rest);
    lemma_paren_scope(sc, seq![' '] + rest);
    reveal_strlit("(");
    let body = "("@ + sc + ")"@ + (seq![' '] + rest);
    let close = 1 + sc.len() as int;
    assert(body.len() == close + 2 + rest.len());
    assert forall|j: int| 0 <= j < rest.len() + 1 implies #[trigger] body.skip(close + 1)[j] == (seq![' '] + rest)[j] by {
        assert(body.skip(close + 1)[j] == body[close + 1 + j]);
    }
    assert(body.skip(close + 1) =~= seq![' '] + rest);
    assert(rest[0] == x[0]);
    lemma_trim_lead_space(rest);
    // the text runs up to the first ` — captured `
    let n = x.len() as int;
    assert(rest.subrange(n, n + 12) =~= sep);
    assert forall|q: int| 0 <= q < n implies !occurs_at(rest, sep, q) by {
        if occurs_at(rest, sep, q) {
            assert(rest.subrange(q, q + 12)[1] == rest[q + 1]);
            assert(sep[1] == '—');
            if q + 1 < n {
                assert(rest[q + 1] == x[q + 1]);
            } else {
                assert(rest[q + 1] == sep[0]);
            }
        }
    }
    lemma_find_first(rest, sep, n);
    assert(rest.take(n) =~= x);
    // and holds no link
    crate::text::lemma_find_props(x, " · [["@);
    assert forall|q: int| 0 <= q implies !occurs_at(x, " · [["@, q) by {
        if occurs_at(x, " · [["@, q) {
            assert(x.subrange(q, q + 5)[1] == x[q + 1]);
        }
    }
    assert(spec_strip_trailing_link(x) == x);
    let out = task_step(s, scoped_task_line(sc, rest), fmt, kept_ids, today).0;
    reveal_strlit("- [ ] (");
    reveal_strlit("- [ ]");
    let line = scoped_task_line(sc, rest);
    assert(line[0] == '-');
    crate::text::lemma_solid_line(line);
    assert(trim_start(line) == line);
}

} // verus!
