//! The capture archive: inbox files as they arrive, the append-only raw
//! files they are archived to, and the history and day lists read back
//! from those.
use crate::calendar::{naive_date_parse, pat_iso};
use crate::datetime::{
    date_error, format_date, format_time, spec_format_date, spec_format_time, valid_date,
    DEFAULT_DATE_FORMAT, DEFAULT_TIME_FORMAT,
};
use crate::order::{text_order, text_order_exec};
use crate::personal::{trim_char, trim_char_exec};
use crate::projects::{first_after_prefix};
use crate::text::{
    chars_of, contains, contains_exec, copy, eq, is_blank, lines, lines_of, push_all, push_str,
    slice_of, split_once, split_once_str, starts_with, starts_with_str, take_chars, take_chars_exec,
    to_string, trim, trim_exec, vv, ends_with, ends_with_str,
};
use vstd::prelude::*;

verus! {

/// One capture waiting in the inbox.
#[derive(Clone, Debug)]
pub struct InboxItem {
    /// File stem, e.g. `2026-08-06-1432-a3f1`. Also the stable id.
    pub id: String,
    pub date: String,
    pub time: String,
    pub text: String,
    pub chars: usize,
}

/// A date that has a raw dump or a day note.
#[derive(Clone, Debug)]
pub struct DayEntry {
    pub date: String,
    pub has_raw: bool,
    pub has_note: bool,
    pub raw_chars: usize,
    pub preview: String,
}

/// One archived capture.
#[derive(Clone, Debug)]
pub struct HistoryItem {
    pub id: String,
    pub date: String,
    pub time: String,
    pub preview: String,
    pub chars: usize,
    pub has_day_note: bool,
}

/// A raw file as read: its date, its text, and whether the date has a day
/// note that is not blank.
pub struct RawDay {
    pub date: String,
    pub text: String,
    pub has_day_note: bool,
}

/// A history item as a value: id, date, time, preview, characters, and
/// whether the date has a day note.
pub type HModel = (Seq<char>, Seq<char>, Seq<char>, Seq<char>, nat, bool);

pub open spec fn hv(h: HistoryItem) -> HModel {
    (h.id@, h.date@, h.time@, h.preview@, h.chars as nat, h.has_day_note)
}

pub open spec fn hsv(s: Seq<HistoryItem>) -> Seq<HModel> {
    s.map_values(|h: HistoryItem| hv(h))
}

// ------------------------------------------------------------------ specs

/// How many bytes UTF-8 spends on `c`.
pub open spec fn utf8_width(c: char) -> nat {
    let n = c as u32;
    if n < 0x80 {
        1
    } else if n < 0x800 {
        2
    } else if n < 0x10000 {
        3
    } else {
        4
    }
}

/// The characters making up exactly the first `n` bytes, when byte `n`
/// falls between characters.
pub open spec fn byte_prefix(s: Seq<char>, n: nat) -> Option<Seq<char>>
    decreases s.len(),
{
    if n == 0 {
        Some(seq![])
    } else if s.len() == 0 || utf8_width(s[0]) > n {
        None
    } else {
        match byte_prefix(s.drop_first(), (n - utf8_width(s[0])) as nat) {
            Some(p) => Some(seq![s[0]] + p),
            None => None,
        }
    }
}

/// `str::get(a..b)`, counted in bytes.
pub open spec fn byte_range(s: Seq<char>, a: nat, b: nat) -> Option<Seq<char>> {
    if b < a {
        None
    } else {
        match byte_prefix(s, a) {
            Some(p) => byte_prefix(s.skip(p.len() as int), (b - a) as nat),
            None => None,
        }
    }
}

/// The body of an inbox file: everything after the frontmatter, trimmed.
pub open spec fn inbox_text(contents: Seq<char>) -> Seq<char> {
    match split_once(contents, "---\n\n"@) {
        Some(p) => trim(p.1),
        None => trim(contents),
    }
}

/// The `HH:MM` an inbox id carries in bytes 11 to 15, if it does; empty
/// when those bytes are not there or do not split into two and two.
pub open spec fn inbox_time(id: Seq<char>) -> Seq<char> {
    match byte_range(id, 11, 15) {
        Some(t) => match byte_prefix(t, 2) {
            Some(hh) => hh + ":"@ + t.skip(hh.len() as int),
            None => seq![],
        },
        None => seq![],
    }
}

/// The line a preview is taken from: the first that is not blank,
/// frontmatter or a heading.
pub open spec fn preview_line(ls: Seq<Seq<char>>) -> Seq<char>
    decreases ls.len(),
{
    if ls.len() == 0 {
        seq![]
    } else {
        let l = trim(ls[0]);
        if l.len() > 0 && !starts_with(l, "#"@) && !starts_with(l, "---"@) && !starts_with(l, "date:"@)
            && !starts_with(l, "projects:"@) {
            l
        } else {
            preview_line(ls.drop_first())
        }
    }
}

/// That line cut to 160 characters, with `…` when it was longer.
pub open spec fn spec_preview_of(text: Seq<char>) -> Seq<char> {
    let l = preview_line(lines(text));
    if l.len() > 160 {
        l.take(160).push('…')
    } else {
        l
    }
}

/// The history reading state: items so far, the current time, id and body.
pub type HScan = (Seq<HModel>, Seq<char>, Seq<char>, Seq<char>);

pub open spec fn hist_flush(
    items: Seq<HModel>,
    date: Seq<char>,
    time: Seq<char>,
    id: Seq<char>,
    body: Seq<char>,
    has_note: bool,
) -> Seq<HModel> {
    let b = trim(body);
    if b.len() == 0 && time.len() == 0 {
        items
    } else {
        items.push((id, date, time, spec_preview_of(b), b.len(), has_note))
    }
}

pub open spec fn hist_step(s: HScan, line: Seq<char>, date: Seq<char>, has_note: bool) -> HScan {
    if starts_with(line, "## "@) {
        let items = hist_flush(s.0, date, s.1, s.2, s.3, has_note);
        let rest = line.skip(3);
        match split_once(rest, " · "@) {
            Some(p) => (items, trim(p.0), trim_char(trim(p.1), '`'), seq![]),
            None => (items, trim(rest), seq![], seq![]),
        }
    } else if starts_with(line, "# "@) {
        s
    } else {
        (s.0, s.1, s.2, s.3 + line + "\n"@)
    }
}

pub open spec fn hist_scan(ls: Seq<Seq<char>>, date: Seq<char>, has_note: bool) -> HScan
    decreases ls.len(),
{
    if ls.len() == 0 {
        (seq![], seq![], seq![], seq![])
    } else {
        hist_step(hist_scan(ls.drop_last(), date, has_note), ls.last(), date, has_note)
    }
}

/// The captures archived in one raw file, in file order.
pub open spec fn day_history(date: Seq<char>, text: Seq<char>, has_note: bool) -> Seq<HModel> {
    let s = hist_scan(lines(text), date, has_note);
    hist_flush(s.0, date, s.1, s.2, s.3, has_note)
}

/// Raw days read in order from `i` on, stopping once `limit` items are in.
pub open spec fn collect_history(days: Seq<(Seq<char>, Seq<char>, bool)>, i: int, acc: Seq<HModel>, limit: nat) -> Seq<
    HModel,
>
    decreases days.len() - i,
{
    if i < 0 || i >= days.len() {
        acc
    } else {
        let next = acc + day_history(days[i].0, days[i].1, days[i].2);
        if next.len() >= limit {
            next
        } else {
            collect_history(days, i + 1, next, limit)
        }
    }
}

/// Where `x` goes among items sorted newest first by (date, time): after
/// every one that is not older.
/// The value of an ASCII digit.
pub open spec fn digit_of(c: char) -> int {
    (c as u32) as int - 48
}

/// A displayed time of day as minutes after midnight: `H:MM` or `HH:MM`,
/// on the 24-hour clock or followed by ` AM` / ` PM`; `-1` for anything
/// else (such as no time at all).
pub open spec fn clock_minutes(t: Seq<char>) -> int {
    let half: int = if ends_with(t, " AM"@) {
        1
    } else if ends_with(t, " PM"@) {
        2
    } else {
        0
    };
    let core = if half == 0 {
        t
    } else {
        t.take(t.len() - 3)
    };
    let n = core.len();
    if !(n == 4 || n == 5) || core[n - 3] != ':' || !crate::datetime::is_digit(core[0])
        || !crate::datetime::is_digit(core[n - 2]) || !crate::datetime::is_digit(core[n - 1])
        || (n == 5 && !crate::datetime::is_digit(core[1])) {
        -1
    } else {
        let h = if n == 5 {
            digit_of(core[0]) * 10 + digit_of(core[1])
        } else {
            digit_of(core[0])
        };
        let m = digit_of(core[n - 2]) * 10 + digit_of(core[n - 1]);
        if m >= 60 {
            -1
        } else if half == 0 {
            if h < 24 {
                h * 60 + m
            } else {
                -1
            }
        } else if 1 <= h <= 12 {
            ((h % 12) + if half == 2 {
                12int
            } else {
                0int
            }) * 60 + m
        } else {
            -1
        }
    }
}

/// How two history items compare: by date, then by time of day.
pub open spec fn hist_order(a: HModel, b: HModel) -> int {
    if text_order(a.1, b.1) != 0 {
        text_order(a.1, b.1)
    } else if clock_minutes(a.2) < clock_minutes(b.2) {
        -1
    } else if clock_minutes(a.2) > clock_minutes(b.2) {
        1
    } else {
        0
    }
}

/// Where `x` goes among items sorted newest first: after every one that is
/// not older.
pub open spec fn hist_pos(s: Seq<HModel>, x: HModel) -> int
    decreases s.len(),
{
    if s.len() == 0 || hist_order(s[0], x) < 0 {
        0
    } else {
        1 + hist_pos(s.drop_first(), x)
    }
}

pub open spec fn sort_hist(s: Seq<HModel>) -> Seq<HModel>
    decreases s.len(),
{
    if s.len() == 0 {
        seq![]
    } else {
        let t = sort_hist(s.drop_last());
        t.insert(hist_pos(t, s.last()), s.last())
    }
}

/// Where date `d` goes among dates sorted newest first.
/// A raw day as a value: date, text, and whether it has a day note.
pub type DModel = (Seq<char>, Seq<char>, bool);

pub open spec fn dmv(days: Seq<RawDay>) -> Seq<DModel> {
    days.map_values(|d: RawDay| (d.date@, d.text@, d.has_day_note))
}

pub open spec fn raw_day_pos(s: Seq<DModel>, d: Seq<char>) -> int
    decreases s.len(),
{
    if s.len() == 0 || text_order(s[0].0, d) < 0 {
        0
    } else {
        1 + raw_day_pos(s.drop_first(), d)
    }
}

/// The raw days named by `YYYY-MM-DD` dates, newest first (days of one date
/// in the order given).
pub open spec fn raw_days_newest_first(s: Seq<DModel>) -> Seq<DModel>
    decreases s.len(),
{
    if s.len() == 0 {
        seq![]
    } else {
        let t = raw_days_newest_first(s.drop_last());
        let d = s.last();
        if naive_date_parse(d.0, pat_iso()) is None {
            t
        } else {
            t.insert(raw_day_pos(t, d.0), d)
        }
    }
}


pub open spec fn date_pos(s: Seq<Seq<char>>, d: Seq<char>) -> int
    decreases s.len(),
{
    if s.len() == 0 || text_order(s[0], d) < 0 {
        0
    } else {
        1 + date_pos(s.drop_first(), d)
    }
}

/// The `YYYY-MM-DD` names among `stems`, each once, newest first.
pub open spec fn spec_day_dates(stems: Seq<Seq<char>>) -> Seq<Seq<char>>
    decreases stems.len(),
{
    if stems.len() == 0 {
        seq![]
    } else {
        let t = spec_day_dates(stems.drop_last());
        let d = stems.last();
        if naive_date_parse(d, pat_iso()) is None || t.contains(d) {
            t
        } else {
            t.insert(date_pos(t, d), d)
        }
    }
}

/// Everything from a raw file's `## ` heading naming capture `id` up to the
/// next `## ` heading.
pub open spec fn collect_item(ls: Seq<Seq<char>>, needle: Seq<char>) -> Seq<char>
    decreases ls.len(),
{
    if ls.len() == 0 {
        seq![]
    } else {
        let l = ls[0];
        if starts_with(l, "## "@) && contains(l, needle) {
            l + "\n"@ + item_tail(ls.drop_first())
        } else {
            collect_item(ls.drop_first(), needle)
        }
    }
}

/// Lines up to the next `## ` heading, each with its line break.
pub open spec fn item_tail(ls: Seq<Seq<char>>) -> Seq<char>
    decreases ls.len(),
{
    if ls.len() == 0 || starts_with(ls[0], "## "@) {
        seq![]
    } else {
        ls[0] + "\n"@ + item_tail(ls.drop_first())
    }
}

pub open spec fn spec_read_history_item(text: Seq<char>, id: Seq<char>) -> Seq<char> {
    if is_blank(id) {
        text
    } else {
        let out = collect_item(lines(text), "`"@ + id + "`"@);
        if out.len() == 0 {
            text
        } else {
            out
        }
    }
}

/// The block a capture is archived as in a raw file, headed by the file's
/// title when the file is new.
pub open spec fn spec_raw_block(
    date: Seq<char>,
    item_id: Option<Seq<char>>,
    text: Seq<char>,
    date_fmt: Seq<char>,
    time_fmt: Seq<char>,
    now_hm: Seq<char>,
    new_file: bool,
) -> Seq<char> {
    (if new_file {
        "# "@ + spec_format_date(date, date_fmt) + " (raw)\n\n"@
    } else {
        seq![]
    }) + "## "@ + spec_format_time(now_hm, time_fmt) + match item_id {
        Some(id) => " · `"@ + id + "`"@,
        None => seq![],
    } + "\n\n"@ + trim(text) + "\n\n"@
}

// ------------------------------------------------------------------ exec

fn utf8_width_exec(c: char) -> (r: usize)
    ensures
        r as nat == utf8_width(c),
{
    let n = c as u32;
    if n < 0x80 {
        1
    } else if n < 0x800 {
        2
    } else if n < 0x10000 {
        3
    } else {
        4
    }
}

fn byte_prefix_exec(s: &[char], n: usize) -> (r: Option<usize>)
    ensures
        r matches Some(k) ==> k <= s.len() && byte_prefix(s@, n as nat) == Some(s@.take(k as int)),
        r is None ==> byte_prefix(s@, n as nat) is None,
{
    let mut k: usize = 0;
    let mut left: usize = n;
    proof {
        assert(s@.skip(0) =~= s@);
        assert(s@.take(0) =~= Seq::<char>::empty());
    }
    while left > 0
        invariant
            k <= s.len(),
            byte_prefix(s@, n as nat) == match byte_prefix(s@.skip(k as int), left as nat) {
                Some(p) => Some(s@.take(k as int) + p),
                None => None,
            },
        decreases left,
    {
        if k >= s.len() {
            return None;
        }
        let w = utf8_width_exec(s[k]);
        if w > left {
            return None;
        }
        proof {
            let t = s@.skip(k as int);
            assert(t[0] == s@[k as int]);
            assert(t.drop_first() =~= s@.skip(k + 1));
            assert(s@.take(k as int) + seq![s@[k as int]] =~= s@.take(k + 1));
            match byte_prefix(s@.skip(k + 1), (left - w) as nat) {
                Some(p) => {
                    assert(s@.take(k as int) + (seq![t[0]] + p) =~= s@.take(k + 1) + p);
                },
                None => {},
            }
        }
        k += 1;
        left -= w;
    }
    proof {
        assert(s@.take(k as int) + Seq::<char>::empty() =~= s@.take(k as int));
    }
    Some(k)
}

/// A capture in the inbox, from its file stem and contents. Any stem is
/// taken: one that does not carry a time reads with none.
pub fn parse_inbox_file(id: &str, contents: &str) -> (r: InboxItem)
    ensures
        r.id@ == id@,
        r.date@ == match byte_prefix(id@, 10) {
            Some(d) => d,
            None => seq![],
        },
        r.time@ == inbox_time(id@),
        r.text@ == inbox_text(contents@),
        r.chars == r.text@.len(),
{
    let ic = chars_of(id);
    let date = match byte_prefix_exec(&ic, 10) {
        Some(k) => to_string(&slice_of(&ic, 0, k)),
        None => String::new(),
    };
    let time = match byte_prefix_exec(&ic, 11) {
        Some(a) => {
            let rest = slice_of(&ic, a, ic.len());
            proof {
                assert(rest@ =~= ic@.skip(a as int));
            }
            match byte_prefix_exec(&rest, 4) {
                Some(b) => {
                    let t = slice_of(&rest, 0, b);
                    proof {
                        assert(t@ =~= rest@.take(b as int));
                    }
                    match byte_prefix_exec(&t, 2) {
                        Some(h) => {
                            let mut out = slice_of(&t, 0, h);
                            out.push(':');
                            let tail = slice_of(&t, h, t.len());
                            push_all(&mut out, &tail);
                            proof {
                                reveal_strlit(":");
                                assert(out@ =~= t@.take(h as int) + ":"@ + t@.skip(h as int));
                            }
                            to_string(&out)
                        },
                        None => String::new(),
                    }
                },
                None => String::new(),
            }
        },
        None => String::new(),
    };
    let cc = chars_of(contents);
    let body = match split_once_str(&cc, "---\n\n") {
        Some((_, rest)) => trim_exec(&rest),
        None => trim_exec(&cc),
    };
    let n = body.len();
    InboxItem { id: id.to_string(), date, time, text: to_string(&body), chars: n }
}

/// An inbox file: the capture stamp in frontmatter, then the text.
pub fn inbox_file_body(captured: &str, text: &str) -> (r: String)
    ensures
        r@ == "---\ncaptured: "@ + captured@ + "\n---\n\n"@ + trim(text@) + "\n"@,
{
    let mut out: Vec<char> = Vec::new();
    push_str(&mut out, "---\ncaptured: ");
    push_str(&mut out, captured);
    push_str(&mut out, "\n---\n\n");
    let tc = chars_of(text);
    let t = trim_exec(&tc);
    push_all(&mut out, &t);
    push_str(&mut out, "\n");
    to_string(&out)
}

/// The capture stamp an inbox file carries, if it has one.
pub fn captured_stamp(existing: &str) -> (r: Option<String>)
    ensures
        r matches Some(s) ==> first_after_prefix(lines(existing@), "captured: "@) matches Some(v)
            && s@ == trim(v),
        r is None ==> first_after_prefix(lines(existing@), "captured: "@) is None,
{
    let ls = lines_of(existing);
    let ghost g = vv(ls@);
    let mut i: usize = 0;
    proof {
        assert(g.skip(0) =~= g);
    }
    while i < ls.len()
        invariant
            0 <= i <= ls.len(),
            g == vv(ls@),
            g == lines(existing@),
            first_after_prefix(g, "captured: "@) == first_after_prefix(g.skip(i as int), "captured: "@),
        decreases ls.len() - i,
    {
        proof {
            assert(g.skip(i as int)[0] == ls@[i as int]@);
            assert(g.skip(i as int).drop_first() =~= g.skip(i + 1));
        }
        if starts_with_str(&ls[i], "captured: ") {
            proof {
                reveal_strlit("captured: ");
            }
            let rest = slice_of(&ls[i], 10, ls[i].len());
            return Some(to_string(&trim_exec(&rest)));
        }
        i += 1;
    }
    None
}

fn preview_ok(l: &[char]) -> (r: bool)
    ensures
        r == (l@.len() > 0 && !starts_with(l@, "#"@) && !starts_with(l@, "---"@) && !starts_with(
            l@,
            "date:"@,
        ) && !starts_with(l@, "projects:"@)),
{
    l.len() > 0 && !starts_with_str(l, "#") && !starts_with_str(l, "---") && !starts_with_str(
        l,
        "date:",
    ) && !starts_with_str(l, "projects:")
}

fn cut_preview(l: &[char]) -> (r: String)
    ensures
        r@ == (if l@.len() > 160 {
            l@.take(160).push('…')
        } else {
            l@
        }),
{
    if l.len() > 160 {
        let mut s = slice_of(l, 0, 160);
        s.push('…');
        to_string(&s)
    } else {
        to_string(l)
    }
}

/// The first line worth showing, cut to 160 characters (with `…` when it
/// was longer).
pub fn preview_of(text: &[char]) -> (r: String)
    ensures
        r@ == spec_preview_of(text@),
{
    let ls = crate::text::split_lines(text);
    let ghost g = vv(ls@);
    let mut i: usize = 0;
    proof {
        assert(g.skip(0) =~= g);
    }
    while i < ls.len()
        invariant
            0 <= i <= ls.len(),
            g == vv(ls@),
            g == lines(text@),
            preview_line(g) == preview_line(g.skip(i as int)),
        decreases ls.len() - i,
    {
        proof {
            assert(g.skip(i as int)[0] == ls@[i as int]@);
            assert(g.skip(i as int).drop_first() =~= g.skip(i + 1));
        }
        let t = trim_exec(&ls[i]);
        if preview_ok(&t) {
            return cut_preview(&t);
        }
        i += 1;
    }
    proof {
        assert(g.skip(i as int) =~= Seq::<Seq<char>>::empty());
    }
    String::new()
}

/// What the day list shows for a date, given its raw text and its day note
/// (each empty when missing): the preview comes from the note when there is
/// one.
pub fn day_entry(date: &str, raw: &str, note: &str) -> (r: DayEntry)
    ensures
        r.date@ == date@,
        r.has_raw == (raw@.len() > 0),
        r.has_note == (note@.len() > 0),
        r.raw_chars == raw@.len(),
        r.preview@ == spec_preview_of(
            if note@.len() == 0 {
                raw@
            } else {
                note@
            },
        ),
{
    let rc = chars_of(raw);
    let nc = chars_of(note);
    let preview = if nc.len() == 0 {
        preview_of(&rc)
    } else {
        preview_of(&nc)
    };
    DayEntry {
        date: date.to_string(),
        has_raw: rc.len() > 0,
        has_note: nc.len() > 0,
        raw_chars: rc.len(),
        preview,
    }
}

fn contains_date(v: &Vec<String>, d: &[char]) -> (r: bool)
    ensures
        r == v@.map_values(|s: String| s@).contains(d@),
{
    let ghost g = v@.map_values(|s: String| s@);
    let mut i: usize = 0;
    while i < v.len()
        invariant
            0 <= i <= v.len(),
            g == v@.map_values(|s: String| s@),
            forall|j: int| 0 <= j < i ==> g[j] != d@,
        decreases v.len() - i,
    {
        let c = chars_of(v[i].as_str());
        proof {
            assert(g[i as int] == v@[i as int]@);
        }
        if eq(&c, d) {
            return true;
        }
        i += 1;
    }
    false
}

/// The dates a vault's raw and day files are named for: the `YYYY-MM-DD`
/// names among the file stems, each once, newest first.
pub fn day_dates(stems: Vec<String>) -> (r: Vec<String>)
    ensures
        r@.map_values(|s: String| s@) == spec_day_dates(stems@.map_values(|s: String| s@)),
{
    let ghost a = stems@;
    let ghost av = a.map_values(|s: String| s@);
    let mut out: Vec<String> = Vec::new();
    proof {
        assert(av.take(0) =~= Seq::<Seq<char>>::empty());
        assert(out@.map_values(|s: String| s@) =~= Seq::<Seq<char>>::empty());
    }
    for d in it: stems.into_iter()
        invariant
            it.seq() == a,
            av == a.map_values(|s: String| s@),
            out@.map_values(|s: String| s@) == spec_day_dates(av.take(it.index() as int)),
    {
        proof {
            assert(av.take(it.index() + 1).drop_last() =~= av.take(it.index() as int));
            assert(av.take(it.index() + 1).last() == d@);
        }
        let dc = chars_of(d.as_str());
        let ok = valid_date(d.as_str()).is_ok();
        if ok && !contains_date(&out, &dc) {
            let ghost s = out@.map_values(|x: String| x@);
            let mut p: usize = 0;
            proof {
                assert(s.skip(0) =~= s);
            }
            while p < out.len() && text_order_exec(&chars_of(out[p].as_str()), &dc) >= 0
                invariant
                    0 <= p <= out.len(),
                    s == out@.map_values(|x: String| x@),
                    dc@ == d@,
                    date_pos(s, d@) == p + date_pos(s.skip(p as int), d@),
                decreases out.len() - p,
            {
                proof {
                    assert(s.skip(p as int).drop_first() =~= s.skip(p + 1));
                    assert(s.skip(p as int)[0] == out@[p as int]@);
                }
                p += 1;
            }
            proof {
                if p < out.len() {
                    assert(s.skip(p as int)[0] == out@[p as int]@);
                }
            }
            let ghost dv = d@;
            out.insert(p, d);
            proof {
                assert(out@.map_values(|x: String| x@) =~= s.insert(p as int, dv));
            }
        }
    }
    proof {
        assert(av.take(av.len() as int) =~= av);
    }
    out
}

fn hist_flush_exec(
    items: &mut Vec<HistoryItem>,
    date: &str,
    time: &Vec<char>,
    id: &Vec<char>,
    body: &Vec<char>,
    has_note: bool,
)
    ensures
        hsv(final(items)@) == hist_flush(hsv(old(items)@), date@, time@, id@, body@, has_note),
{
    let b = trim_exec(body);
    if b.len() == 0 && time.len() == 0 {
        return;
    }
    let preview = preview_of(&b);
    let h = HistoryItem {
        id: to_string(id),
        date: date.to_string(),
        time: to_string(time),
        chars: b.len(),
        preview,
        has_day_note: has_note,
    };
    let ghost hm = hv(h);
    items.push(h);
    proof {
        assert(hsv(items@) =~= hsv(old(items)@).push(hm));
    }
}

fn day_history_exec(items: &mut Vec<HistoryItem>, day: &RawDay)
    ensures
        hsv(final(items)@) == hsv(old(items)@) + day_history(day.date@, day.text@, day.has_day_note),
{
    let ls = lines_of(day.text.as_str());
    let ghost g = vv(ls@);
    let ghost start = hsv(items@);
    let mut time: Vec<char> = Vec::new();
    let mut id: Vec<char> = Vec::new();
    let mut body: Vec<char> = Vec::new();
    let mut i: usize = 0;
    proof {
        assert(g.take(0) =~= Seq::<Seq<char>>::empty());
        assert(start + Seq::<HModel>::empty() =~= start);
    }
    while i < ls.len()
        invariant
            0 <= i <= ls.len(),
            g == vv(ls@),
            g == lines(day.text@),
            ({
                let s = hist_scan(g.take(i as int), day.date@, day.has_day_note);
                hsv(items@) == start + s.0 && time@ == s.1 && id@ == s.2 && body@ == s.3
            }),
        decreases ls.len() - i,
    {
        proof {
            assert(g.take(i + 1).drop_last() =~= g.take(i as int));
            assert(g.take(i + 1).last() == ls@[i as int]@);
        }
        let ghost s0 = hist_scan(g.take(i as int), day.date@, day.has_day_note);
        let line = &ls[i];
        if starts_with_str(line, "## ") {
            proof {
                reveal_strlit("## ");
            }
            let ghost before = items@;
            hist_flush_exec(items, day.date.as_str(), &time, &id, &body, day.has_day_note);
            proof {
                let y = (id@, day.date@, time@, spec_preview_of(trim(body@)), trim(body@).len(), day.has_day_note);
                assert((start + s0.0).push(y) =~= start + s0.0.push(y));
            }
            body = Vec::new();
            let rest = slice_of(line, 3, line.len());
            match split_once_str(&rest, " · ") {
                Some((t, r)) => {
                    time = trim_exec(&t);
                    id = trim_char_exec(&trim_exec(&r), '`');
                },
                None => {
                    time = trim_exec(&rest);
                    id = Vec::new();
                },
            }
        } else if starts_with_str(line, "# ") {
        } else {
            push_all(&mut body, line);
            body.push('\n');
            proof {
                reveal_strlit("\n");
                assert(body@ =~= s0.3 + line@ + "\n"@);
            }
        }
        i += 1;
    }
    proof {
        assert(g.take(ls.len() as int) =~= g);
    }
    hist_flush_exec(items, day.date.as_str(), &time, &id, &body, day.has_day_note);
}

fn clock_minutes_exec(t: &[char]) -> (r: i64)
    ensures
        r as int == clock_minutes(t@),
{
    proof {
        reveal_strlit(" AM");
        reveal_strlit(" PM");
    }
    let half: u8 = if ends_with_str(t, " AM") {
        1
    } else if ends_with_str(t, " PM") {
        2
    } else {
        0
    };
    let core = if half == 0 {
        slice_of(t, 0, t.len())
    } else {
        slice_of(t, 0, t.len() - 3)
    };
    proof {
        if half == 0 {
            assert(core@ =~= t@);
        } else {
            assert(core@ =~= t@.take(t@.len() - 3));
        }
    }
    let n = core.len();
    if !(n == 4 || n == 5) {
        return -1;
    }
    if core[n - 3] != ':' || !crate::datetime::is_digit_exec(core[0]) || !crate::datetime::is_digit_exec(
        core[n - 2],
    ) || !crate::datetime::is_digit_exec(core[n - 1]) || (n == 5 && !crate::datetime::is_digit_exec(core[1])) {
        return -1;
    }
    let h: i64 = if n == 5 {
        (core[0] as u32 as i64 - 48) * 10 + (core[1] as u32 as i64 - 48)
    } else {
        core[0] as u32 as i64 - 48
    };
    let m: i64 = (core[n - 2] as u32 as i64 - 48) * 10 + (core[n - 1] as u32 as i64 - 48);
    if m >= 60 {
        -1
    } else if half == 0 {
        if h < 24 {
            h * 60 + m
        } else {
            -1
        }
    } else if 1 <= h && h <= 12 {
        let base: i64 = if half == 2 {
            12
        } else {
            0
        };
        ((h % 12) + base) * 60 + m
    } else {
        -1
    }
}

fn hist_order_exec(a: &HistoryItem, b: &HistoryItem) -> (r: i8)
    ensures
        r as int == hist_order(hv(*a), hv(*b)),
{
    let d = text_order_exec(&chars_of(a.date.as_str()), &chars_of(b.date.as_str()));
    if d != 0 {
        return d;
    }
    let ta = clock_minutes_exec(&chars_of(a.time.as_str()));
    let tb = clock_minutes_exec(&chars_of(b.time.as_str()));
    if ta < tb {
        -1
    } else if ta > tb {
        1
    } else {
        0
    }
}

/// The raw days whose names are `YYYY-MM-DD` dates, newest first.
fn order_raw_days(days: Vec<RawDay>) -> (r: Vec<RawDay>)
    ensures
        dmv(r@) == raw_days_newest_first(dmv(days@)),
{
    let ghost a = days@;
    let mut out: Vec<RawDay> = Vec::new();
    proof {
        assert(dmv(a.take(0)) =~= Seq::<DModel>::empty());
        assert(dmv(out@) =~= Seq::<DModel>::empty());
    }
    for d in it: days.into_iter()
        invariant
            it.seq() == a,
            dmv(out@) == raw_days_newest_first(dmv(a.take(it.index() as int))),
    {
        proof {
            assert(dmv(a.take(it.index() + 1)).drop_last() =~= dmv(a.take(it.index() as int)));
            assert(dmv(a.take(it.index() + 1)).last() == (d.date@, d.text@, d.has_day_note));
        }
        let ok = valid_date(d.date.as_str()).is_ok();
        if ok {
            let dc = chars_of(d.date.as_str());
            let ghost s = dmv(out@);
            let mut p: usize = 0;
            proof {
                assert(s.skip(0) =~= s);
            }
            while p < out.len() && text_order_exec(&chars_of(out[p].date.as_str()), &dc) >= 0
                invariant
                    0 <= p <= out.len(),
                    s == dmv(out@),
                    dc@ == d.date@,
                    raw_day_pos(s, d.date@) == p + raw_day_pos(s.skip(p as int), d.date@),
                decreases out.len() - p,
            {
                proof {
                    assert(s.skip(p as int).drop_first() =~= s.skip(p + 1));
                    assert(s.skip(p as int)[0] == (out@[p as int].date@, out@[p as int].text@, out@[p as int].has_day_note));
                }
                p += 1;
            }
            proof {
                if p < out.len() {
                    assert(s.skip(p as int)[0] == (out@[p as int].date@, out@[p as int].text@, out@[p as int].has_day_note));
                }
            }
            let ghost dv = (d.date@, d.text@, d.has_day_note);
            out.insert(p, d);
            proof {
                assert(dmv(out@) =~= s.insert(p as int, dv));
            }
        }
    }
    proof {
        assert(a.take(a.len() as int) =~= a);
    }
    out
}

/// The capture archive, newest first: of the raw days given, those named by
/// `YYYY-MM-DD` dates are read newest first until `limit` captures are in;
/// then everything read is sorted newest first, by date and then by time of
/// day (`clock_minutes`), and cut to `limit`.
pub fn list_history(days: Vec<RawDay>, limit: usize) -> (r: Vec<HistoryItem>)
    ensures
        hsv(r@) == ({
            let all = sort_hist(collect_history(raw_days_newest_first(dmv(days@)), 0, seq![], limit as nat));
            if limit < all.len() {
                all.take(limit as int)
            } else {
                all
            }
        }),
{
    let days = order_raw_days(days);
    let ghost dv = days@.map_values(|d: RawDay| (d.date@, d.text@, d.has_day_note));
    proof {
        assert(dv =~= dmv(days@));
    }
    let mut items: Vec<HistoryItem> = Vec::new();
    let mut i: usize = 0;
    proof {
        assert(hsv(items@) =~= Seq::<HModel>::empty());
    }
    let mut done = false;
    while i < days.len() && !done
        invariant
            0 <= i <= days.len(),
            dv == days@.map_values(|d: RawDay| (d.date@, d.text@, d.has_day_note)),
            done ==> collect_history(dv, 0, seq![], limit as nat) == hsv(items@),
            !done ==> collect_history(dv, 0, seq![], limit as nat) == collect_history(
                dv,
                i as int,
                hsv(items@),
                limit as nat,
            ),
        decreases days.len() - i,
    {
        proof {
            assert(dv[i as int] == (days@[i as int].date@, days@[i as int].text@, days@[i as int].has_day_note));
        }
        day_history_exec(&mut items, &days[i]);
        if items.len() >= limit {
            done = true;
        }
        i += 1;
    }
    let ghost collected = hsv(items@);
    proof {
        assert(collect_history(dv, 0, seq![], limit as nat) == collected);
    }
    let ghost a = items@;
    let mut out: Vec<HistoryItem> = Vec::new();
    proof {
        assert(hsv(a.take(0)) =~= Seq::<HModel>::empty());
    }
    for x in it: items.into_iter()
        invariant
            it.seq() == a,
            hsv(out@) == sort_hist(hsv(a.take(it.index() as int))),
    {
        proof {
            assert(hsv(a.take(it.index() + 1)).drop_last() =~= hsv(a.take(it.index() as int)));
            assert(hsv(a.take(it.index() + 1)).last() == hv(x));
        }
        let ghost s = hsv(out@);
        let mut p: usize = 0;
        proof {
            assert(s.skip(0) =~= s);
        }
        while p < out.len() && hist_order_exec(&out[p], &x) >= 0
            invariant
                0 <= p <= out.len(),
                s == hsv(out@),
                hist_pos(s, hv(x)) == p + hist_pos(s.skip(p as int), hv(x)),
            decreases out.len() - p,
        {
            proof {
                assert(s.skip(p as int).drop_first() =~= s.skip(p + 1));
                assert(s.skip(p as int)[0] == hv(out@[p as int]));
            }
            p += 1;
        }
        proof {
            if p < out.len() {
                assert(s.skip(p as int)[0] == hv(out@[p as int]));
            }
        }
        let ghost xv = hv(x);
        out.insert(p, x);
        proof {
            assert(hsv(out@) =~= s.insert(p as int, xv));
        }
    }
    proof {
        assert(a.take(a.len() as int) =~= a);
    }
    let ghost full = hsv(out@);
    out.truncate(limit);
    proof {
        assert(hsv(out@) =~= if limit < full.len() { full.take(limit as int) } else { full });
    }
    out
}

/// One capture's block out of a raw file: from its `## ` heading (the one
/// naming its id) to the next; the whole file when the id is blank or not
/// found.
pub fn read_history_item(text: &str, id: &str) -> (r: String)
    ensures
        r@ == spec_read_history_item(text@, id@),
{
    let idc = chars_of(id);
    if crate::text::is_blank_exec(&idc) {
        return text.to_string();
    }
    let mut needle: Vec<char> = Vec::new();
    push_str(&mut needle, "`");
    push_all(&mut needle, &idc);
    push_str(&mut needle, "`");
    let ls = lines_of(text);
    let ghost g = vv(ls@);
    let mut i: usize = 0;
    proof {
        assert(g.skip(0) =~= g);
    }
    while i < ls.len() && !(starts_with_str(&ls[i], "## ") && contains_exec(&ls[i], &needle))
        invariant
            0 <= i <= ls.len(),
            g == vv(ls@),
            g == lines(text@),
            needle@ == "`"@ + id@ + "`"@,
            collect_item(g, needle@) == collect_item(g.skip(i as int), needle@),
        decreases ls.len() - i,
    {
        proof {
            assert(g.skip(i as int)[0] == ls@[i as int]@);
            assert(g.skip(i as int).drop_first() =~= g.skip(i + 1));
        }
        i += 1;
    }
    if i >= ls.len() {
        proof {
            assert(g.skip(i as int) =~= Seq::<Seq<char>>::empty());
        }
        return text.to_string();
    }
    proof {
        assert(g.skip(i as int)[0] == ls@[i as int]@);
        assert(g.skip(i as int).drop_first() =~= g.skip(i + 1));
    }
    let mut out = copy(&ls[i]);
    out.push('\n');
    let ghost head = out@;
    proof {
        reveal_strlit("\n");
        assert(head =~= ls@[i as int]@ + "\n"@);
    }
    let mut j = i + 1;
    proof {
        assert(g.skip(j as int) =~= g.skip(i as int).drop_first());
        assert(head + Seq::<char>::empty() =~= head);
    }
    while j < ls.len() && !starts_with_str(&ls[j], "## ")
        invariant
            i < j <= ls.len(),
            g == vv(ls@),
            out@ + item_tail(g.skip(j as int)) == head + item_tail(g.skip(i + 1)),
        decreases ls.len() - j,
    {
        proof {
            assert(g.skip(j as int)[0] == ls@[j as int]@);
            assert(g.skip(j as int).drop_first() =~= g.skip(j + 1));
        }
        let ghost before = out@;
        push_all(&mut out, &ls[j]);
        out.push('\n');
        proof {
            reveal_strlit("\n");
            assert(out@ =~= before + ls@[j as int]@ + "\n"@);
        }
        j += 1;
    }
    proof {
        if j < ls.len() {
            assert(g.skip(j as int)[0] == ls@[j as int]@);
        } else {
            assert(g.skip(j as int) =~= Seq::<Seq<char>>::empty());
        }
        assert(out@ =~= head + item_tail(g.skip(i + 1)));
    }
    to_string(&out)
}

/// The block a capture is archived as in `raw/{date}.md`, stamped with the
/// time it was filed (`now_hm`), headed by the file's title when the file is
/// new. The date must be `YYYY-MM-DD`.
pub fn append_raw_item(
    date: &str,
    item_id: Option<&str>,
    text: &str,
    date_fmt: &str,
    time_fmt: &str,
    now_hm: &str,
    new_file: bool,
) -> (r: Result<String, String>)
    ensures
        r matches Ok(t) ==> naive_date_parse(date@, pat_iso()) is Some && t@ == spec_raw_block(
            date@,
            crate::tasks::opt_str(item_id),
            text@,
            date_fmt@,
            time_fmt@,
            now_hm@,
            new_file,
        ),
        r matches Err(e) ==> naive_date_parse(date@, pat_iso()) is None && e@ == date_error(date@),
{
    match valid_date(date) {
        Ok(_) => {},
        Err(e) => return Err(e),
    }
    let mut out: Vec<char> = Vec::new();
    if new_file {
        push_str(&mut out, "# ");
        let title = format_date(date, date_fmt);
        push_str(&mut out, title.as_str());
        push_str(&mut out, " (raw)\n\n");
    }
    push_str(&mut out, "## ");
    let stamp = format_time(now_hm, time_fmt);
    push_str(&mut out, stamp.as_str());
    match item_id {
        Some(id) => {
            push_str(&mut out, " · `");
            push_str(&mut out, id);
            push_str(&mut out, "`");
        },
        None => {},
    }
    push_str(&mut out, "\n\n");
    let tc = chars_of(text);
    let t = trim_exec(&tc);
    push_all(&mut out, &t);
    push_str(&mut out, "\n\n");
    proof {
        assert(out@ =~= spec_raw_block(
            date@,
            crate::tasks::opt_str(item_id),
            text@,
            date_fmt@,
            time_fmt@,
            now_hm@,
            new_file,
        ));
    }
    Ok(to_string(&out))
}

/// `append_raw_item` for a capture with no id, in the default formats.
pub fn append_raw(date: &str, text: &str, now_hm: &str, new_file: bool) -> (r: Result<String, String>)
    ensures
        r matches Ok(t) ==> naive_date_parse(date@, pat_iso()) is Some && t@ == spec_raw_block(
            date@,
            None,
            text@,
            DEFAULT_DATE_FORMAT@,
            DEFAULT_TIME_FORMAT@,
            now_hm@,
            new_file,
        ),
        r matches Err(e) ==> naive_date_parse(date@, pat_iso()) is None && e@ == date_error(date@),
{
    append_raw_item(date, None, text, DEFAULT_DATE_FORMAT, DEFAULT_TIME_FORMAT, now_hm, new_file)
}


// ------------------------------------------------------------------ what is archived reads back

/// A line of a raw file that opens capture `id`'s block.
pub open spec fn opens_item(l: Seq<char>, id: Seq<char>) -> bool {
    starts_with(l, "## "@) && contains(l, "`"@ + id + "`"@)
}

/// Lines that hold no `## ` heading read back through `item_tail` as
/// themselves, each with its line break.
proof fn lemma_item_tail_plain(ls: Seq<Seq<char>>)
    requires
        forall|k: int| 0 <= k < ls.len() ==> !starts_with(#[trigger] ls[k], "## "@),
    ensures
        item_tail(ls) == crate::text::lines_nl(ls),
    decreases ls.len(),
{
    reveal_strlit("\n");
    if ls.len() > 0 {
        let r = ls.drop_first();
        assert forall|k: int| 0 <= k < r.len() implies !starts_with(#[trigger] r[k], "## "@) by {
            assert(r[k] == ls[k + 1]);
        }
        lemma_item_tail_plain(r);
        crate::text::lemma_lines_nl_cons(ls[0], r);
        assert(seq![ls[0]] + r =~= ls);
        assert(!starts_with(ls[0], "## "@));
        assert("\n"@ =~= seq!['\n']);
    }
}

/// A capture's block is found past lines that open no block of its id.
proof fn lemma_collect_past(a: Seq<Seq<char>>, b: Seq<Seq<char>>, needle: Seq<char>)
    requires
        forall|k: int| 0 <= k < a.len() ==> !(starts_with(#[trigger] a[k], "## "@) && contains(a[k], needle)),
    ensures
        collect_item(a + b, needle) == collect_item(b, needle),
    decreases a.len(),
{
    if a.len() > 0 {
        let r = a.drop_first();
        assert forall|k: int| 0 <= k < r.len() implies !(starts_with(#[trigger] r[k], "## "@) && contains(r[k], needle)) by {
            assert(r[k] == a[k + 1]);
        }
        lemma_collect_past(r, b, needle);
        assert((a + b)[0] == a[0]);
        assert((a + b).drop_first() =~= r + b);
    } else {
        assert(a + b =~= b);
    }
}

/// What is archived reads back verbatim: once a capture's block is appended
/// to a raw file, reading that capture's history gives back the block, its
/// heading and its trimmed text. (A new file's title goes before the block
/// and is part of what the file held before it.) It holds when the file so
/// far ends its last line and has no heading for the same id, the id is not
/// blank, the stamp and the id fit on one line, and the text has no carriage
/// return and no line starting with `## `, which would read as the next
/// capture.
pub proof fn law_archived_capture_reads_back(
    existing: Seq<char>,
    date: Seq<char>,
    item_id: Seq<char>,
    text: Seq<char>,
    date_fmt: Seq<char>,
    time_fmt: Seq<char>,
    now_hm: Seq<char>,
)
    requires
        existing.len() == 0 || existing.last() == '\n',
        forall|k: int| 0 <= k < lines(existing).len() ==> !opens_item(#[trigger] lines(existing)[k], item_id),
        !is_blank(item_id),
        crate::text::clean_line(spec_format_time(now_hm, time_fmt)),
        crate::text::clean_line(item_id),
        crate::text::no_cr(text),
        forall|k: int| 0 <= k < lines(trim(text)).len() ==> !starts_with(#[trigger] lines(trim(text))[k], "## "@),
    ensures
        spec_read_history_item(
            existing + spec_raw_block(date, Some(item_id), text, date_fmt, time_fmt, now_hm, false),
            item_id,
        ) == spec_raw_block(date, Some(item_id), text, date_fmt, time_fmt, now_hm, false),
{
    reveal_strlit("## ");
    reveal_strlit(" · `");
    reveal_strlit("`");
    reveal_strlit("\n\n");
    reveal_strlit("\n");
    let needle = "`"@ + item_id + "`"@;
    let stamp = spec_format_time(now_hm, time_fmt);
    let h = "## "@ + stamp + " · `"@ + item_id + "`"@;
    let t = trim(text);
    let block = spec_raw_block(date, Some(item_id), text, date_fmt, time_fmt, now_hm, false);
    let nl: Seq<char> = seq!['\n'];
    assert(block =~= (h + nl) + (nl + ((t + nl) + nl)));
    // the heading is one clean line that opens the capture
    assert(crate::text::clean_line(h)) by {
        assert forall|j: int| 0 <= j < h.len() implies h[j] != '\n' && h[j] != '\r' by {
            if j < 3 {
                assert(h[j] == "## "@[j]);
            } else if j < 3 + stamp.len() {
                assert(h[j] == stamp[j - 3]);
            } else if j < 3 + stamp.len() + 4 {
                assert(h[j] == " · `"@[j - 3 - stamp.len()]);
            } else if j < 3 + stamp.len() + 4 + item_id.len() {
                assert(h[j] == item_id[j - 7 - stamp.len()]);
            } else {
                assert(h[j] == '`');
            }
        }
    }
    assert(starts_with(h, "## "@)) by {
        assert(h.take(3) =~= "## "@);
    }
    let at = h.len() - needle.len();
    assert(crate::text::occurs_at(h, needle, at)) by {
        assert(h.subrange(at, at + needle.len()) =~= needle);
    }
    crate::text::lemma_contains_at(h, needle, at);
    // the lines of the block
    crate::text::lemma_lines_one(h);
    crate::text::lemma_lines_one(Seq::<char>::empty());
    assert(Seq::<char>::empty() + nl =~= nl);
    let e: Seq<char> = Seq::empty();
    crate::text::lemma_lines_concat(h + nl, nl + ((t + nl) + nl));
    crate::text::lemma_lines_concat(nl, (t + nl) + nl);
    let tl = lines(t + nl);
    if t.len() > 0 {
        crate::text::lemma_trim_edges_clean(text);
        crate::text::lemma_lines_concat(t + nl, nl);
        crate::text::lemma_lines_nl_tail(t);
        crate::text::lemma_lines_nl_lines(t);
        assert(tl == lines(t));
    } else {
        assert(t + nl =~= nl);
        assert(tl == seq![e]);
        assert(lines(t + nl + nl) == seq![e] + seq![e]) by {
            crate::text::lemma_lines_concat(nl, nl);
        }
    }
    let bl = lines(block);
    let rest = seq![e] + lines((t + nl) + nl);
    assert(bl == seq![h] + rest);
    // nothing after the heading opens another block
    assert forall|k: int| 0 <= k < rest.len() implies !starts_with(#[trigger] rest[k], "## "@) by {
        if k == 0 {
            assert(rest[0] == e);
        } else if t.len() > 0 {
            assert(lines((t + nl) + nl) == lines(t) + seq![e]);
            if k - 1 < lines(t).len() {
                assert(rest[k] == lines(t)[k - 1]);
            } else {
                assert(rest[k] == e);
            }
        } else {
            assert(lines((t + nl) + nl) == seq![e, e]);
            assert(rest[k] == e);
        }
    }
    lemma_item_tail_plain(rest);
    // what the tail reads as
    if t.len() > 0 {
        crate::text::lemma_lines_nl_cons(e, lines(t) + seq![e]);
        assert(lines((t + nl) + nl) == lines(t) + seq![e]);
        crate::text::lemma_lines_nl_lines(t);
        assert(crate::text::lines_nl(lines(t) + seq![e]) =~= crate::text::lines_nl(lines(t)) + e + nl) by {
            let x = lines(t) + seq![e];
            assert(x.drop_last() =~= lines(t));
            assert(x.last() == e);
        }
        assert(crate::text::lines_nl(rest) =~= nl + (t + nl) + nl);
    } else {
        assert(rest =~= seq![e, e, e]);
        assert(crate::text::lines_nl(rest) =~= nl + nl + nl) by {
            reveal_with_fuel(crate::text::lines_nl, 4);
        }
    }
    // the first block of this id is the new one
    let le = lines(existing);
    crate::text::lemma_lines_concat(existing, block);
    lemma_collect_past(le, bl, needle);
    assert(bl[0] == h);
    assert(bl.drop_first() =~= rest);
    assert(collect_item(bl, needle) == h + "\n"@ + item_tail(rest));
    assert(h + "\n"@ + item_tail(rest) =~= block);
}


// ------------------------------------------------------------------ an edited capture reads back

/// Editing a capture keeps it what it was: the file written for it reads
/// back with the capture stamp it was written with (trimmed) and with the
/// edited text (trimmed). It holds for a stamp that is one line.
#[verifier::spinoff_prover]
#[verifier::rlimit(50)]
pub proof fn law_edited_capture_reads_back(captured: Seq<char>, text: Seq<char>)
    requires
        crate::text::clean_line(captured),
    ensures
        ({
            let body = "---\ncaptured: "@ + captured + "\n---\n\n"@ + trim(text) + "\n"@;
            &&& first_after_prefix(lines(body), "captured: "@) == Some(captured)
            &&& inbox_text(body) == trim(text)
        }),
{
    reveal_strlit("---\ncaptured: ");
    reveal_strlit("\n---\n\n");
    reveal_strlit("\n");
    reveal_strlit("captured: ");
    reveal_strlit("---\n\n");
    let tt = trim(text);
    let body = "---\ncaptured: "@ + captured + "\n---\n\n"@ + tt + "\n"@;
    let nl: Seq<char> = seq!['\n'];
    let dashes: Seq<char> = seq!['-', '-', '-'];
    let head = "captured: "@ + captured;
    let tail = dashes + nl + nl + tt + nl;
    assert(body =~= (dashes + nl) + ((head + nl) + tail));
    // the stamp line
    crate::text::lemma_lines_one(dashes);
    assert(crate::text::clean_line(head)) by {
        assert forall|j: int| 0 <= j < head.len() implies head[j] != '\n' && head[j] != '\r' by {
            if j < 10 {
                assert(head[j] == "captured: "@[j]);
            } else {
                assert(head[j] == captured[j - 10]);
            }
        }
    }
    crate::text::lemma_lines_one(head);
    crate::text::lemma_lines_concat(dashes + nl, (head + nl) + tail);
    crate::text::lemma_lines_concat(head + nl, tail);
    let ls = lines(body);
    assert(ls == seq![dashes] + (seq![head] + lines(tail)));
    assert(ls[0] == dashes);
    assert(!starts_with(dashes, "captured: "@));
    assert(ls.drop_first() =~= seq![head] + lines(tail));
    assert(starts_with(head, "captured: "@)) by {
        assert(head.take(10) =~= "captured: "@);
    }
    assert(head.skip(10) =~= captured);
    assert((seq![head] + lines(tail))[0] == head);
    assert(first_after_prefix(ls.drop_first(), "captured: "@) == Some(head.skip(10)));
    assert(first_after_prefix(ls, "captured: "@) == Some(captured));
    // the text after the front matter
    let p = "---\n\n"@;
    let k: int = head.len() as int + 5;
    assert(crate::text::occurs_at(body, p, k)) by {
        assert(body.subrange(k, k + 5) =~= p);
    }
    assert forall|j: int| 0 <= j < k implies !crate::text::occurs_at(body, p, j) by {
        if crate::text::occurs_at(body, p, j) {
            let w = body.subrange(j, j + 5);
            assert(w[3] == body[j + 3] && w[4] == body[j + 4]);
            assert(p[3] == '\n' && p[4] == '\n');
            if j + 3 < 4 {
                assert(body[4] == 'c');
            } else if j + 3 < 4 + head.len() {
                assert(body[j + 3] == head[j + 3 - 4]);
            } else if j + 3 == 4 + head.len() {
                assert(body[j + 4] == '-');
            } else {
                assert(body[j + 3] == '-');
            }
        }
    }
    crate::text::lemma_find_unique(body, p, k);
    assert(body.skip(k + 5) =~= tt.push('\n'));
    assert(split_once(body, p) == Some((body.take(k), body.skip(k + 5))));
    crate::text::lemma_trim_push_ws(tt, '\n');
    assert(crate::text::is_ws('\n')) by {
        assert(('\n' as u32) == 10);
    }
    crate::text::lemma_trim_idempotent(text);
    assert(inbox_text(body) == trim(tt.push('\n')));
}

} // verus!
