//! `tasks.md`: one checkbox line per task, each carrying the id of the entry
//! record it came from, so ticking the box by hand is read back as done.
use crate::calendar::{naive_date_parse, pat_iso};
use crate::datetime::{date_error, format_date, spec_format_date, valid_date};
use crate::entries::{checkbox_state, spec_marker_id, task_pairs};
use crate::text::{
    chars_of, contains, contains_str, copy, decimal, decimal_exec, ends_with, ends_with_str, find,
    find_exec, is_blank, is_blank_exec, join, join_exec, lines, lines_of, push_all, push_str,
    slice_of, strip_cr, to_string, trim, trim_exec, trim_start, vv, starts_with,
};
use vstd::prelude::*;

verus! {

/// ` · due {date}` when a due date is given and not blank.
pub open spec fn due_bit(due: Option<Seq<char>>, fmt: Seq<char>) -> Seq<char> {
    match due {
        Some(d) => if is_blank(d) {
            seq![]
        } else {
            " · due "@ + spec_format_date(d, fmt)
        },
        None => seq![],
    }
}

/// ` · [[{link}]]` when a link is given and not blank.
pub open spec fn link_bit(link: Option<Seq<char>>) -> Seq<char> {
    match link {
        Some(l) => if is_blank(l) {
            seq![]
        } else {
            " · [["@ + l + "]]"@
        },
        None => seq![],
    }
}

/// The part of a task line before the entry id.
pub open spec fn box_prefix(done: bool) -> Seq<char> {
    if done {
        "- [x] <!-- e:"@
    } else {
        "- [ ] <!-- e:"@
    }
}

pub open spec fn scope_bit(scope: Seq<char>) -> Seq<char> {
    if is_blank(scope) {
        seq![]
    } else {
        "("@ + scope + ") "@
    }
}

/// `- [ ] <!-- e:{id} --> ({scope}) {text} — captured {date} · due {due} · [[{link}]]`.
pub open spec fn spec_format_task_line(
    done: bool,
    entry_id: Seq<char>,
    scope: Seq<char>,
    text: Seq<char>,
    date: Seq<char>,
    due: Option<Seq<char>>,
    link: Option<Seq<char>>,
    fmt: Seq<char>,
) -> Seq<char> {
    box_prefix(done) + entry_id + " --> "@ + scope_bit(scope) + trim(text) + " — captured "@
        + spec_format_date(date, fmt) + due_bit(due, fmt) + link_bit(link)
}

pub open spec fn opt_str(o: Option<&str>) -> Option<Seq<char>> {
    match o {
        Some(s) => Some(s@),
        None => None,
    }
}

/// `existing`, ended by a line break if it was not.
pub open spec fn ended(existing: Seq<char>) -> Seq<char> {
    if existing.len() > 0 && existing.last() != '\n' {
        existing.push('\n')
    } else {
        existing
    }
}

/// Why a capture date (and due date, if any) is refused: the first one that
/// is not `YYYY-MM-DD`.
pub open spec fn dates_error(date: Seq<char>, due: Option<Seq<char>>) -> Option<Seq<char>> {
    if naive_date_parse(date, pat_iso()) is None {
        Some(date_error(date))
    } else {
        match due {
            Some(d) => if naive_date_parse(d, pat_iso()) is None {
                Some(date_error(d))
            } else {
                None
            },
            None => None,
        }
    }
}

/// `str::replacen(p, q, 1)`: the first occurrence of `p` replaced by `q`.
pub open spec fn replace_first(s: Seq<char>, p: Seq<char>, q: Seq<char>) -> Seq<char> {
    match find(s, p) {
        Some(i) => s.take(i) + q + s.skip(i + p.len()),
        None => s,
    }
}

/// A task line with its box flipped, or `None` when it holds no checkbox.
pub open spec fn spec_toggle_line(l: Seq<char>) -> Option<Seq<char>> {
    if contains(l, "- [ ]"@) {
        Some(replace_first(l, "- [ ]"@, "- [x]"@))
    } else if contains(l, "- [x]"@) || contains(l, "- [X]"@) {
        Some(replace_first(replace_first(l, "- [x]"@, "- [ ]"@), "- [X]"@, "- [ ]"@))
    } else {
        None
    }
}

pub open spec fn no_task_error(line: nat) -> Seq<char> {
    "No task on line "@ + decimal(line)
}

pub open spec fn not_checkbox_error(line: nat) -> Seq<char> {
    "Line "@ + decimal(line) + " is not a task checkbox"@
}

/// `tasks.md` with the box on 1-based line `line` flipped.
pub open spec fn spec_toggle_task_line(text: Seq<char>, line: nat) -> Result<Seq<char>, Seq<char>> {
    let ls = lines(text);
    if line == 0 || line > ls.len() {
        Err(no_task_error(line))
    } else {
        match spec_toggle_line(ls[line - 1]) {
            Some(nl) => Ok(
                join(ls.update(line - 1, nl), "\n"@) + if ends_with(text, "\n"@) {
                    "\n"@
                } else {
                    seq![]
                },
            ),
            None => Err(not_checkbox_error(line)),
        }
    }
}

/// No line break inside.
pub open spec fn one_line(s: Seq<char>) -> bool {
    forall|i: int| 0 <= i < s.len() ==> s[i] != '\n'
}

// ------------------------------------------------------------------ exec

fn push_opt_bit(out: &mut Vec<char>, o: Option<&str>, head: &str, tail: &str, date_fmt: Option<&str>)
    ensures
        date_fmt is Some ==> final(out)@ == old(out)@ + due_bit(opt_str(o), date_fmt->0@),
        date_fmt is None && head@ == " · [["@ && tail@ == "]]"@ ==> final(out)@ == old(out)@
            + link_bit(opt_str(o)),
{
    match o {
        Some(v) => {
            let vc = chars_of(v);
            if !is_blank_exec(&vc) {
                match date_fmt {
                    Some(f) => {
                        proof {
                            reveal_strlit(" · due ");
                        }
                        push_str(out, " · due ");
                        let d = format_date(v, f);
                        push_str(out, d.as_str());
                        proof {
                            assert(out@ =~= old(out)@ + due_bit(opt_str(o), f@));
                        }
                    },
                    None => {
                        push_str(out, head);
                        push_all(out, &vc);
                        push_str(out, tail);
                        proof {
                            assert(head@ == " · [["@ && tail@ == "]]"@ ==> out@ =~= old(out)@
                                + link_bit(opt_str(o)));
                        }
                    },
                }
            }
        },
        None => {},
    }
}

/// Render one task line. Shared by append and rewrite so a task edited in
/// the app comes out identical to one written at capture time.
pub fn format_task_line(
    done: bool,
    entry_id: &str,
    scope: &str,
    text: &str,
    date: &str,
    due: Option<&str>,
    link: Option<&str>,
    date_fmt: &str,
) -> (r: String)
    ensures
        r@ == spec_format_task_line(
            done,
            entry_id@,
            scope@,
            text@,
            date@,
            opt_str(due),
            opt_str(link),
            date_fmt@,
        ),
{
    let mut out: Vec<char> = Vec::new();
    if done {
        push_str(&mut out, "- [x] <!-- e:");
    } else {
        push_str(&mut out, "- [ ] <!-- e:");
    }
    push_str(&mut out, entry_id);
    push_str(&mut out, " --> ");
    let sc = chars_of(scope);
    if !is_blank_exec(&sc) {
        push_str(&mut out, "(");
        push_all(&mut out, &sc);
        push_str(&mut out, ") ");
    }
    let tc = chars_of(text);
    let tt = trim_exec(&tc);
    push_all(&mut out, &tt);
    push_str(&mut out, " — captured ");
    let captured = format_date(date, date_fmt);
    push_str(&mut out, captured.as_str());
    push_opt_bit(&mut out, due, "", "", Some(date_fmt));
    proof {
        reveal_strlit(" · [[");
        reveal_strlit("]]");
    }
    push_opt_bit(&mut out, link, " · [[", "]]", None);
    proof {
        assert(out@ =~= spec_format_task_line(
            done,
            entry_id@,
            scope@,
            text@,
            date@,
            opt_str(due),
            opt_str(link),
            date_fmt@,
        ));
    }
    to_string(&out)
}

/// Append an open task line to the text of `tasks.md`. The capture date and
/// any due date must be `YYYY-MM-DD`; otherwise the text is left alone and
/// the date's error comes back.
pub fn append_task(
    existing: &str,
    date: &str,
    scope: &str,
    text: &str,
    due: Option<&str>,
    date_fmt: &str,
    entry_id: &str,
    link: Option<&str>,
) -> (r: Result<String, String>)
    ensures
        r matches Ok(t) ==> dates_error(date@, opt_str(due)) is None && t@ == ended(existing@)
            + spec_format_task_line(
            false,
            entry_id@,
            scope@,
            text@,
            date@,
            opt_str(due),
            opt_str(link),
            date_fmt@,
        ) + seq!['\n'],
        r matches Err(e) ==> dates_error(date@, opt_str(due)) == Some(e@),
{
    match valid_date(date) {
        Ok(_) => {},
        Err(e) => return Err(e),
    }
    match due {
        Some(d) => match valid_date(d) {
            Ok(_) => {},
            Err(e) => return Err(e),
        },
        None => {},
    }
    let mut out = chars_of(existing);
    if out.len() > 0 && out[out.len() - 1] != '\n' {
        out.push('\n');
    }
    let line = format_task_line(false, entry_id, scope, text, date, due, link, date_fmt);
    push_str(&mut out, line.as_str());
    out.push('\n');
    Ok(to_string(&out))
}

pub fn replace_first_exec(s: &[char], p: &str, q: &str) -> (r: Vec<char>)
    ensures
        r@ == replace_first(s@, p@, q@),
{
    let pc = chars_of(p);
    match find_exec(s, &pc) {
        Some(i) => {
            proof {
                crate::text::lemma_find_props(s@, p@);
                assert(s@.len() == s.len());
            }
            let mut out = slice_of(s, 0, i);
            push_str(&mut out, q);
            let tail = slice_of(s, i + pc.len(), s.len());
            push_all(&mut out, &tail);
            out
        },
        None => copy(s),
    }
}

fn toggle_line(l: &[char]) -> (r: Option<Vec<char>>)
    ensures
        r matches Some(v) ==> spec_toggle_line(l@) == Some(v@),
        r is None ==> spec_toggle_line(l@) is None,
{
    if contains_str(l, "- [ ]") {
        Some(replace_first_exec(l, "- [ ]", "- [x]"))
    } else if contains_str(l, "- [x]") || contains_str(l, "- [X]") {
        let a = replace_first_exec(l, "- [x]", "- [ ]");
        Some(replace_first_exec(&a, "- [X]", "- [ ]"))
    } else {
        None
    }
}

fn line_error(head: &str, line: usize, tail: &str) -> (r: String)
    ensures
        r@ == head@ + decimal(line as nat) + tail@,
{
    let mut out: Vec<char> = Vec::new();
    push_str(&mut out, head);
    let d = decimal_exec(line);
    push_all(&mut out, &d);
    push_str(&mut out, tail);
    to_string(&out)
}

/// Flip `- [ ]` and `- [x]` on a 1-based line number of `tasks.md`.
pub fn toggle_task_line(text: &str, line: usize) -> (r: Result<String, String>)
    ensures
        match r {
            Ok(t) => spec_toggle_task_line(text@, line as nat) == Ok::<Seq<char>, Seq<char>>(t@),
            Err(e) => spec_toggle_task_line(text@, line as nat) == Err::<Seq<char>, Seq<char>>(e@),
        },
{
    let mut ls = lines_of(text);
    let ghost g = lines(text@);
    if line == 0 || line > ls.len() {
        let e = line_error("No task on line ", line, "");
        proof {
            reveal_strlit("");
            assert(e@ =~= no_task_error(line as nat));
        }
        return Err(e);
    }
    let idx = line - 1;
    match toggle_line(&ls[idx]) {
        Some(nl) => {
            let ghost nlv = nl@;
            ls.set(idx, nl);
            proof {
                assert(vv(ls@) =~= g.update(idx as int, nlv));
            }
            let mut out = join_exec(&ls, "\n");
            let tc = chars_of(text);
            if ends_with_str(&tc, "\n") {
                out.push('\n');
            }
            proof {
                reveal_strlit("\n");
                assert(out@ =~= spec_toggle_task_line(text@, line as nat)->Ok_0);
            }
            Ok(to_string(&out))
        },
        None => Err(line_error("Line ", line, " is not a task checkbox")),
    }
}

// ------------------------------------------------------------------ laws

proof fn lemma_lines_push_line(s: Seq<char>, l: Seq<char>)
    requires
        s.len() == 0 || s.last() == '\n',
        one_line(l),
    ensures
        lines(s + l + seq!['\n']) == lines(s).push(strip_cr(l)),
    decreases s.len(),
{
    let t = s + l + seq!['\n'];
    crate::text::lemma_first_nl(t);
    if s.len() == 0 {
        assert(t =~= l + seq!['\n']);
        crate::text::lemma_first_nl_at(t, l.len() as int);
        assert(t.take(l.len() as int) =~= l);
        assert(t.skip(l.len() as int + 1) =~= Seq::<char>::empty());
        assert(crate::text::first_nl(t) == l.len());
        assert(lines(Seq::<char>::empty()) =~= Seq::<Seq<char>>::empty());
        assert(lines(t) == seq![strip_cr(t.take(l.len() as int))] + lines(t.skip(l.len() as int + 1)));
        assert(lines(t) =~= seq![strip_cr(l)]);
    } else {
        crate::text::lemma_first_nl(s);
        let i: int = crate::text::first_nl(s) as int;
        assert(i < s.len());
        crate::text::lemma_first_nl_at(t, i);
        let rest = s.skip(i + 1);
        assert(t.take(i) =~= s.take(i));
        assert(t.skip(i + 1) =~= rest + l + seq!['\n']);
        if rest.len() > 0 {
            assert(rest.last() == s.last());
        }
        lemma_lines_push_line(rest, l);
        assert(lines(s) == seq![strip_cr(s.take(i))] + lines(rest));
        assert(lines(t) =~= seq![strip_cr(s.take(i))] + lines(rest).push(strip_cr(l)));
    }
}

proof fn lemma_task_pairs_push(ls: Seq<Seq<char>>, l: Seq<char>)
    ensures
        task_pairs(ls.push(l)) == match checkbox_state(l) {
            Some(done) => match spec_marker_id(trim_start(l)) {
                Some(id) => task_pairs(ls).push((id, done)),
                None => task_pairs(ls),
            },
            None => task_pairs(ls),
        },
{
    assert(ls.push(l).drop_last() =~= ls);
}

/// A task line is read back as its entry with the box's state, provided the
/// id is not blank and does not itself hold the marker's closing `-->`.
pub proof fn law_task_line_reads_back(
    done: bool,
    entry_id: Seq<char>,
    scope: Seq<char>,
    text: Seq<char>,
    date: Seq<char>,
    due: Option<Seq<char>>,
    link: Option<Seq<char>>,
    fmt: Seq<char>,
)
    requires
        !is_blank(entry_id),
        !contains(entry_id, "-->"@),
    ensures
        checkbox_state(spec_format_task_line(done, entry_id, scope, text, date, due, link, fmt))
            == Some(done),
        spec_marker_id(spec_format_task_line(done, entry_id, scope, text, date, due, link, fmt))
            == Some(trim(entry_id)),
{
    let line = spec_format_task_line(done, entry_id, scope, text, date, due, link, fmt);
    let tail = " --> "@ + scope_bit(scope) + trim(text) + " — captured "@ + spec_format_date(
        date,
        fmt,
    ) + due_bit(due, fmt) + link_bit(link);
    assert(line =~= box_prefix(done) + entry_id + tail);
    reveal_strlit("- [x] <!-- e:");
    reveal_strlit("- [ ] <!-- e:");
    reveal_strlit("- [x]");
    reveal_strlit("- [X]");
    reveal_strlit("- [ ]");
    reveal_strlit("<!-- e:");
    reveal_strlit("-->");
    reveal_strlit(" --> ");
    // The line starts with no whitespace, so `trim_start` leaves it.
    assert(line[0] == '-');
    assert(trim_start(line) == line);
    assert(line.take(13) =~= box_prefix(done));
    if done {
        assert(line.take(5) =~= "- [x]"@);
    } else {
        assert(line.take(5) =~= "- [ ]"@);
        assert(line.take(5)[3] != "- [x]"@[3]);
        assert(line.take(5)[3] != "- [X]"@[3]);
    }
    // The marker opens at index 6, and nowhere before.
    crate::text::lemma_find_props(line, "<!-- e:"@);
    assert(line.subrange(6, 13) =~= "<!-- e:"@);
    assert forall|j: int| 0 <= j < 6 implies !crate::text::occurs_at(line, "<!-- e:"@, j) by {
        assert(line[j] == box_prefix(done)[j]);
        if crate::text::occurs_at(line, "<!-- e:"@, j) {
            assert(line.subrange(j, j + 7)[0] == line[j]);
        }
    }
    crate::text::lemma_find_unique(line, "<!-- e:"@, 6);
    let rest = line.skip(13);
    assert(rest =~= entry_id + tail);
    // The first `-->` in the rest closes the marker right after the id.
    let k: int = entry_id.len() as int + 1;
    assert(rest.subrange(k, k + 3) =~= "-->"@);
    assert forall|j: int| 0 <= j < k implies !crate::text::occurs_at(rest, "-->"@, j) by {
        if crate::text::occurs_at(rest, "-->"@, j) {
            if j + 3 <= entry_id.len() {
                assert(entry_id.subrange(j, j + 3) =~= rest.subrange(j, j + 3));
                crate::text::lemma_find_props(entry_id, "-->"@);
                assert(crate::text::occurs_at(entry_id, "-->"@, j));
            } else {
                // The window reaches the space after the id.
                let sp = entry_id.len() - j;
                assert(rest[entry_id.len() as int] == ' ');
                assert(rest.subrange(j, j + 3)[sp] == "-->"@[sp]);
            }
        }
    }
    crate::text::lemma_find_unique(rest, "-->"@, k);
    assert(rest.take(k) =~= entry_id.push(' '));
    assert(trim(entry_id.push(' ')) == trim(entry_id)) by {
        crate::text::lemma_trim_push_ws(entry_id, ' ');
    }
}

/// What `append_task` adds is read back by the task reader as one more
/// entry, not done: the rest of the file reads as before. Stated for text
/// that ends with a line break (or is empty) and a line that holds none.
pub proof fn law_appended_task_is_tracked(
    existing: Seq<char>,
    entry_id: Seq<char>,
    scope: Seq<char>,
    text: Seq<char>,
    date: Seq<char>,
    due: Option<Seq<char>>,
    link: Option<Seq<char>>,
    fmt: Seq<char>,
)
    requires
        existing.len() == 0 || existing.last() == '\n',
        !is_blank(entry_id),
        !contains(entry_id, "-->"@),
        one_line(spec_format_task_line(false, entry_id, scope, text, date, due, link, fmt)),
        spec_format_task_line(false, entry_id, scope, text, date, due, link, fmt).last() != '\r',
    ensures
        task_pairs(
            lines(
                ended(existing) + spec_format_task_line(
                    false,
                    entry_id,
                    scope,
                    text,
                    date,
                    due,
                    link,
                    fmt,
                ) + seq!['\n'],
            ),
        ) == task_pairs(lines(existing)).push((trim(entry_id), false)),
{
    let line = spec_format_task_line(false, entry_id, scope, text, date, due, link, fmt);
    assert(ended(existing) == existing);
    lemma_lines_push_line(existing, line);
    assert(strip_cr(line) == line);
    law_task_line_reads_back(false, entry_id, scope, text, date, due, link, fmt);
    lemma_task_pairs_push(lines(existing), line);
    reveal_strlit("- [ ] <!-- e:");
    assert(line[0] == '-');
    assert(trim_start(line) == line);
}


/// Ticking an open task line in the app gives exactly the line a done task
/// is written as.
pub proof fn law_toggle_ticks_an_open_task(
    entry_id: Seq<char>,
    scope: Seq<char>,
    text: Seq<char>,
    date: Seq<char>,
    due: Option<Seq<char>>,
    link: Option<Seq<char>>,
    fmt: Seq<char>,
)
    ensures
        spec_toggle_line(spec_format_task_line(false, entry_id, scope, text, date, due, link, fmt))
            == Some(spec_format_task_line(true, entry_id, scope, text, date, due, link, fmt)),
{
    let open = spec_format_task_line(false, entry_id, scope, text, date, due, link, fmt);
    let done = spec_format_task_line(true, entry_id, scope, text, date, due, link, fmt);
    reveal_strlit("- [ ] <!-- e:");
    reveal_strlit("- [x] <!-- e:");
    reveal_strlit("- [ ]");
    reveal_strlit("- [x]");
    let tail = entry_id + " --> "@ + scope_bit(scope) + trim(text) + " — captured "@
        + spec_format_date(date, fmt) + due_bit(due, fmt) + link_bit(link);
    assert(open =~= box_prefix(false) + tail);
    assert(done =~= box_prefix(true) + tail);
    assert(open.subrange(0, 5) =~= "- [ ]"@);
    crate::text::lemma_find_unique(open, "- [ ]"@, 0);
    crate::text::lemma_find_props(open, "- [ ]"@);
    assert(open.take(0) + "- [x]"@ + open.skip(5) =~= done);
}


/// A task line opens with its box and holds the task's text, trimmed.
pub proof fn law_task_line_shape(
    done: bool,
    entry_id: Seq<char>,
    scope: Seq<char>,
    text: Seq<char>,
    date: Seq<char>,
    due: Option<Seq<char>>,
    link: Option<Seq<char>>,
    fmt: Seq<char>,
)
    ensures
        starts_with(spec_format_task_line(done, entry_id, scope, text, date, due, link, fmt), box_prefix(done)),
        contains(spec_format_task_line(done, entry_id, scope, text, date, due, link, fmt), trim(text)),
{
    let line = spec_format_task_line(done, entry_id, scope, text, date, due, link, fmt);
    let a = box_prefix(done) + entry_id + " --> "@ + scope_bit(scope);
    let b = " — captured "@ + spec_format_date(date, fmt) + due_bit(due, fmt) + link_bit(link);
    assert(line =~= a + trim(text) + b);
    assert(line.take(box_prefix(done).len() as int) =~= box_prefix(done));
    assert(line.subrange(a.len() as int, (a.len() + trim(text).len()) as int) =~= trim(text));
    assert(crate::text::occurs_at(line, trim(text), a.len() as int));
    crate::text::lemma_find_props(line, trim(text));
}

proof fn lemma_clean_cat(a: Seq<char>, b: Seq<char>)
    requires
        crate::text::clean_line(a),
        crate::text::clean_line(b),
    ensures
        crate::text::clean_line(a + b),
{
    assert forall|j: int| 0 <= j < (a + b).len() implies (a + b)[j] != '\n' && (a + b)[j] != '\r' by {
        if j >= a.len() {
            assert((a + b)[j] == b[j - a.len()]);
        }
    }
}

/// A task line is a single line when what it is made of is: the id, the
/// scope, the text, the link and the dates as displayed.
pub proof fn law_task_line_is_one_line(
    done: bool,
    entry_id: Seq<char>,
    scope: Seq<char>,
    text: Seq<char>,
    date: Seq<char>,
    due: Option<Seq<char>>,
    link: Option<Seq<char>>,
    fmt: Seq<char>,
)
    requires
        crate::text::clean_line(entry_id),
        crate::text::clean_line(scope),
        crate::text::clean_line(text),
        crate::text::clean_line(spec_format_date(date, fmt)),
        due matches Some(d) ==> crate::text::clean_line(spec_format_date(d, fmt)),
        link matches Some(l) ==> crate::text::clean_line(l),
    ensures
        crate::text::clean_line(spec_format_task_line(done, entry_id, scope, text, date, due, link, fmt)),
{
    reveal_strlit("- [x] <!-- e:");
    reveal_strlit("- [ ] <!-- e:");
    reveal_strlit(" --> ");
    reveal_strlit("(");
    reveal_strlit(") ");
    reveal_strlit(" — captured ");
    reveal_strlit(" · due ");
    reveal_strlit(" · [[");
    reveal_strlit("]]");
    let e: Seq<char> = Seq::empty();
    assert(crate::text::clean_line(e));
    assert(crate::text::clean_line(box_prefix(done)));
    assert(crate::text::clean_line(" --> "@));
    assert(crate::text::clean_line(" — captured "@));
    // the trimmed text is a piece of the text
    crate::text::lemma_trim_start_is_skip(text);
    crate::text::lemma_trim_end_edges(trim_start(text));
    let k = choose|k: int| 0 <= k <= text.len() && trim_start(text) == text.skip(k);
    assert forall|j: int| 0 <= j < trim(text).len() implies trim(text)[j] != '\n' && trim(text)[j] != '\r' by {
        assert(trim(text)[j] == text[j + k]);
    }
    if !is_blank(scope) {
        assert(crate::text::clean_line("("@));
        assert(crate::text::clean_line(") "@));
        lemma_clean_cat("("@, scope);
        lemma_clean_cat("("@ + scope, ") "@);
    }
    if let Some(d) = due {
        if !is_blank(d) {
            assert(crate::text::clean_line(" · due "@));
            lemma_clean_cat(" · due "@, spec_format_date(d, fmt));
        }
    }
    if let Some(l) = link {
        if !is_blank(l) {
            assert(crate::text::clean_line(" · [["@));
            assert(crate::text::clean_line("]]"@));
            lemma_clean_cat(" · [["@, l);
            lemma_clean_cat(" · [["@ + l, "]]"@);
        }
    }
    lemma_clean_cat(box_prefix(done), entry_id);
    lemma_clean_cat(box_prefix(done) + entry_id, " --> "@);
    lemma_clean_cat(box_prefix(done) + entry_id + " --> "@, scope_bit(scope));
    lemma_clean_cat(box_prefix(done) + entry_id + " --> "@ + scope_bit(scope), trim(text));
    let p = box_prefix(done) + entry_id + " --> "@ + scope_bit(scope) + trim(text);
    lemma_clean_cat(p, " — captured "@);
    lemma_clean_cat(p + " — captured "@, spec_format_date(date, fmt));
    lemma_clean_cat(p + " — captured "@ + spec_format_date(date, fmt), due_bit(due, fmt));
    lemma_clean_cat(p + " — captured "@ + spec_format_date(date, fmt) + due_bit(due, fmt), link_bit(link));
}

} // verus!
