//! `ideas.md`: maybe-someday bullets under dated headings. Each bullet
//! carries its entry id, so a rebuild never recovers a second record for it.
use crate::calendar::{naive_date_parse, pat_iso};
use crate::datetime::{date_error, format_date, format_time, spec_format_date, spec_format_time, valid_date};
use crate::entity::{heading_date, heading_date_exec};
use crate::tasks::{ended, link_bit, opt_str};
use crate::text::{
    chars_of, eq, find, find_exec, find_str, is_blank_exec, lines, lines_of, push_all, push_str,
    slice_of, to_string, trim, trim_exec, vv, occurs_at,
};
use vstd::prelude::*;

verus! {

/// The first `## ` heading line that names `date` (in any display format).
pub open spec fn date_heading_line(ls: Seq<Seq<char>>, date: Seq<char>, fmt: Seq<char>) -> Option<
    Seq<char>,
>
    decreases ls.len(),
{
    if ls.len() == 0 {
        None
    } else if heading_date(ls[0], fmt) == Some(date) {
        Some(ls[0])
    } else {
        date_heading_line(ls.drop_first(), date, fmt)
    }
}

/// `- **{time}** <!-- e:{id} --> ({scope}) {text} · [[{link}]]`, with its
/// line break.
pub open spec fn idea_bullet(
    time: Seq<char>,
    time_fmt: Seq<char>,
    entry_id: Seq<char>,
    scope: Seq<char>,
    text: Seq<char>,
    link: Option<Seq<char>>,
) -> Seq<char> {
    "- **"@ + spec_format_time(time, time_fmt) + "** <!-- e:"@ + entry_id + " --> ("@ + scope + ") "@
        + trim(text) + link_bit(link) + "\n"@
}

/// Where the text after the line found at `pos` begins.
pub open spec fn after_line(e: Seq<char>, pos: int) -> int {
    match find(e.skip(pos), "\n"@) {
        Some(i) => pos + i + 1,
        None => e.len() as int,
    }
}

pub open spec fn spec_append_idea(
    existing: Seq<char>,
    date: Seq<char>,
    time: Seq<char>,
    scope: Seq<char>,
    text: Seq<char>,
    date_fmt: Seq<char>,
    time_fmt: Seq<char>,
    entry_id: Seq<char>,
    link: Option<Seq<char>>,
) -> Seq<char> {
    let e = ended(existing);
    let b = idea_bullet(time, time_fmt, entry_id, scope, text, link);
    let fresh = e + "\n## "@ + spec_format_date(date, date_fmt) + "\n\n"@ + b;
    match date_heading_line(lines(e), date, date_fmt) {
        Some(l) => match find(e, l) {
            Some(pos) => {
                let a = after_line(e, pos);
                e.take(a) + "\n"@ + b + e.skip(a)
            },
            None => fresh,
        },
        None => fresh,
    }
}

/// Add an idea to the text of `ideas.md`: under the heading for its date
/// when there is one, else under a new heading at the end. `link` is the
/// owning `projects/slug` or `areas/slug`, if the idea has one. The date
/// must be `YYYY-MM-DD`.
pub fn append_idea(
    existing: &str,
    date: &str,
    time: &str,
    scope: &str,
    text: &str,
    date_fmt: &str,
    time_fmt: &str,
    entry_id: &str,
    link: Option<&str>,
) -> (r: Result<String, String>)
    ensures
        r matches Ok(t) ==> naive_date_parse(date@, pat_iso()) is Some && t@ == spec_append_idea(
            existing@,
            date@,
            time@,
            scope@,
            text@,
            date_fmt@,
            time_fmt@,
            entry_id@,
            opt_str(link),
        ),
        r matches Err(e) ==> naive_date_parse(date@, pat_iso()) is None && e@ == date_error(date@),
{
    match valid_date(date) {
        Ok(_) => {},
        Err(e) => return Err(e),
    }
    let mut e = chars_of(existing);
    if e.len() > 0 && e[e.len() - 1] != '\n' {
        e.push('\n');
    }
    proof {
        assert(e@ == ended(existing@));
    }
    let mut b: Vec<char> = Vec::new();
    push_str(&mut b, "- **");
    let dt = format_time(time, time_fmt);
    push_str(&mut b, dt.as_str());
    push_str(&mut b, "** <!-- e:");
    push_str(&mut b, entry_id);
    push_str(&mut b, " --> (");
    push_str(&mut b, scope);
    push_str(&mut b, ") ");
    let tc = chars_of(text);
    let tt = trim_exec(&tc);
    push_all(&mut b, &tt);
    match link {
        Some(l) => {
            let lc = chars_of(l);
            if !is_blank_exec(&lc) {
                push_str(&mut b, " · [[");
                push_all(&mut b, &lc);
                push_str(&mut b, "]]");
            }
        },
        None => {},
    }
    push_str(&mut b, "\n");
    proof {
        assert(b@ =~= idea_bullet(time@, time_fmt@, entry_id@, scope@, text@, opt_str(link)));
    }
    let ls = crate::text::split_lines(&e);
    let ghost g = vv(ls@);
    let datec = chars_of(date);
    let mut i: usize = 0;
    proof {
        assert(g.skip(0) =~= g);
    }
    let mut found: Option<usize> = None;
    while i < ls.len() && found.is_none()
        invariant
            0 <= i <= ls.len(),
            g == vv(ls@),
            g == lines(e@),
            datec@ == date@,
            found is None ==> date_heading_line(g, date@, date_fmt@) == date_heading_line(
                g.skip(i as int),
                date@,
                date_fmt@,
            ),
            found matches Some(k) ==> k < ls.len() && date_heading_line(g, date@, date_fmt@) == Some(
                ls@[k as int]@,
            ),
        decreases ls.len() - i,
    {
        proof {
            assert(g.skip(i as int)[0] == ls@[i as int]@);
            assert(g.skip(i as int).drop_first() =~= g.skip(i + 1));
        }
        let hit = match heading_date_exec(&ls[i], date_fmt) {
            Some(d) => {
                let dc = chars_of(d.as_str());
                eq(&dc, &datec)
            },
            None => false,
        };
        if hit {
            found = Some(i);
        }
        i += 1;
    }
    let ghost fresh = e@ + "\n## "@ + spec_format_date(date@, date_fmt@) + "\n\n"@ + b@;
    let at = match found {
        Some(k) => {
            match find_exec(&e, &ls[k]) {
                Some(pos) => {
                    proof {
                        crate::text::lemma_find_props(e@, ls@[k as int]@);
                    }
                    let tail = slice_of(&e, pos, e.len());
                    proof {
                        assert(tail@ =~= e@.skip(pos as int));
                    }
                    match find_str(&tail, "\n") {
                        Some(j) => {
                            proof {
                                reveal_strlit("\n");
                                crate::text::lemma_find_props(tail@, "\n"@);
                            }
                            Some(pos + j + 1)
                        },
                        None => Some(e.len()),
                    }
                },
                None => None,
            }
        },
        None => {
            proof {
                assert(g.skip(i as int) =~= Seq::<Seq<char>>::empty());
            }
            None
        },
    };
    match at {
        Some(a) => {
            let mut out = slice_of(&e, 0, a);
            out.push('\n');
            push_all(&mut out, &b);
            let rest = slice_of(&e, a, e.len());
            push_all(&mut out, &rest);
            proof {
                reveal_strlit("\n");
                assert(out@ =~= e@.take(a as int) + "\n"@ + b@ + e@.skip(a as int));
            }
            Ok(to_string(&out))
        },
        None => {
            let mut out = e;
            push_str(&mut out, "\n## ");
            let dd = format_date(date, date_fmt);
            push_str(&mut out, dd.as_str());
            push_str(&mut out, "\n\n");
            push_all(&mut out, &b);
            proof {
                assert(out@ =~= fresh);
            }
            Ok(to_string(&out))
        },
    }
}


proof fn lemma_no_date_heading(ls: Seq<Seq<char>>, date: Seq<char>, fmt: Seq<char>)
    requires
        forall|k: int| 0 <= k < ls.len() ==> heading_date(#[trigger] ls[k], fmt) != Some(date),
    ensures
        date_heading_line(ls, date, fmt) is None,
    decreases ls.len(),
{
    if ls.len() > 0 {
        assert(heading_date(ls[0], fmt) != Some(date));
        assert forall|k: int| 0 <= k < ls.drop_first().len() implies heading_date(#[trigger] ls.drop_first()[k], fmt)
            != Some(date) by {
            assert(ls.drop_first()[k] == ls[k + 1]);
        }
        lemma_no_date_heading(ls.drop_first(), date, fmt);
    }
}

proof fn lemma_date_heading_found(ls: Seq<Seq<char>>, date: Seq<char>, fmt: Seq<char>)
    ensures
        date_heading_line(ls, date, fmt) matches Some(l) ==> heading_date(l, fmt) == Some(date) && ls.contains(l),
    decreases ls.len(),
{
    if ls.len() > 0 && heading_date(ls[0], fmt) != Some(date) {
        lemma_date_heading_found(ls.drop_first(), date, fmt);
        if let Some(l) = date_heading_line(ls.drop_first(), date, fmt) {
            let k = choose|k: int| 0 <= k < ls.drop_first().len() && ls.drop_first()[k] == l;
            assert(ls[k + 1] == l);
        }
    } else if ls.len() > 0 {
        assert(ls[0] == ls[0]);
    }
}

/// Every line of a text occurs in it.
proof fn lemma_lines_occur(s: Seq<char>, k: int)
    requires
        0 <= k < lines(s).len(),
    ensures
        exists|p: int| #[trigger] occurs_at(s, lines(s)[k], p),
    decreases s.len(),
{
    crate::text::lemma_first_nl(s);
    let i = crate::text::first_nl(s) as int;
    if i < s.len() {
        let x = s.take(i);
        let l0 = crate::text::strip_cr(x);
        assert(l0 =~= x.take(l0.len() as int));
        if k == 0 {
            assert(lines(s)[0] == l0);
            assert(s.subrange(0, l0.len() as int) =~= l0);
            assert(occurs_at(s, lines(s)[k], 0));
        } else {
            let rest = s.skip(i + 1);
            assert(lines(s)[k] == lines(rest)[k - 1]);
            lemma_lines_occur(rest, k - 1);
            let p = choose|p: int| #[trigger] occurs_at(rest, lines(rest)[k - 1], p);
            let l = lines(rest)[k - 1];
            assert(s.subrange(p + i + 1, p + i + 1 + l.len()) =~= rest.subrange(p, p + l.len()));
            assert(occurs_at(s, lines(s)[k], p + i + 1));
        }
    } else {
        assert(lines(s)[0] == s);
        assert(s.subrange(0, s.len() as int) =~= s);
        assert(occurs_at(s, lines(s)[k], 0));
    }
}

/// An idea for a date no heading of `ideas.md` names starts a new heading:
/// the result is the old text (ended) followed by a `## ` heading for the
/// date, a blank line and the bullet.
pub proof fn law_idea_for_a_new_date_gets_its_heading(
    existing: Seq<char>,
    date: Seq<char>,
    time: Seq<char>,
    scope: Seq<char>,
    text: Seq<char>,
    date_fmt: Seq<char>,
    time_fmt: Seq<char>,
    entry_id: Seq<char>,
    link: Option<Seq<char>>,
)
    requires
        forall|k: int|
            0 <= k < lines(ended(existing)).len() ==> heading_date(#[trigger] lines(ended(existing))[k], date_fmt)
                != Some(date),
    ensures
        spec_append_idea(existing, date, time, scope, text, date_fmt, time_fmt, entry_id, link) == ended(existing)
            + "\n## "@ + spec_format_date(date, date_fmt) + "\n\n"@ + idea_bullet(
            time,
            time_fmt,
            entry_id,
            scope,
            text,
            link,
        ),
{
    lemma_no_date_heading(lines(ended(existing)), date, date_fmt);
}

/// An idea for a date that a heading of `ideas.md` names lands under such a
/// heading: the bullet goes in on the line right after a place where a line
/// whose date reads back as the idea's date occurs, and the rest of the
/// text stays as it was around it.
pub proof fn law_idea_lands_under_its_date(
    existing: Seq<char>,
    date: Seq<char>,
    time: Seq<char>,
    scope: Seq<char>,
    text: Seq<char>,
    date_fmt: Seq<char>,
    time_fmt: Seq<char>,
    entry_id: Seq<char>,
    link: Option<Seq<char>>,
    k: int,
)
    requires
        0 <= k < lines(ended(existing)).len(),
        heading_date(lines(ended(existing))[k], date_fmt) == Some(date),
    ensures
        ({
            let e = ended(existing);
            let b = idea_bullet(time, time_fmt, entry_id, scope, text, link);
            exists|l: Seq<char>, pos: int, a: int|
                #![trigger occurs_at(e, l, pos), e.take(a)]
                heading_date(l, date_fmt) == Some(date) && occurs_at(e, l, pos) && pos + l.len() < a <= e.len()
                    && e[a - 1] == '\n' && (forall|m: int| pos <= m < a - 1 ==> e[m] != '\n')
                    && spec_append_idea(existing, date, time, scope, text, date_fmt, time_fmt, entry_id, link)
                    == e.take(a) + "\n"@ + b + e.skip(a)
        }),
{
    reveal_strlit("\n");
    reveal_strlit("## ");
    let e = ended(existing);
    let ls = lines(e);
    lemma_date_heading_found(ls, date, date_fmt);
    match date_heading_line(ls, date, date_fmt) {
        Some(l) => {
            let j = choose|j: int| 0 <= j < ls.len() && ls[j] == l;
            lemma_lines_occur(e, j);
            let p = choose|p: int| #[trigger] occurs_at(e, ls[j], p);
            crate::text::lemma_find_props(e, l);
            assert(occurs_at(e, l, p));
            let pos = find(e, l)->0;
            assert(occurs_at(e, l, pos));
            assert(l.take(3) =~= "## "@);
            assert(l.len() >= 3);
            assert(l.take(3)[0] == '#');
            assert(e.subrange(pos, pos + l.len())[0] == l[0]);
            // the text ends a line after the heading: it is ended
            assert(e.len() > 0 && e.last() == '\n');
            let t = e.skip(pos);
            crate::text::lemma_find_props(t, "\n"@);
            assert(t.subrange(t.len() - 1, t.len() as int) =~= "\n"@);
            assert(occurs_at(t, "\n"@, t.len() - 1));
            let i = find(t, "\n"@)->0;
            assert(occurs_at(t, "\n"@, i));
            assert(t.subrange(i, i + 1)[0] == t[i]);
            let a = pos + i + 1;
            assert(e[a - 1] == t[i]);
            assert forall|m: int| pos <= m < a - 1 implies e[m] != '\n' by {
                assert(!occurs_at(t, "\n"@, m - pos));
                if e[m] == '\n' {
                    assert(t.subrange(m - pos, m - pos + 1) =~= "\n"@);
                }
            }
            assert(after_line(e, pos) == a);
            // no line break inside the heading line itself
            assert(i >= l.len()) by {
                if i < l.len() {
                    assert(e[pos + i] == e.subrange(pos, pos + l.len())[i]);
                    assert(l[i] == '\n');
                    assert(ls.contains(l));
                    lemma_lines_have_no_nl(e, j);
                }
            }
            assert(e.take(a) == e.take(a));
        },
        None => {
            lemma_some_heading(ls, date, date_fmt, k);
        },
    }
}

proof fn lemma_lines_have_no_nl(s: Seq<char>, k: int)
    requires
        0 <= k < lines(s).len(),
    ensures
        forall|m: int| 0 <= m < lines(s)[k].len() ==> lines(s)[k][m] != '\n',
    decreases s.len(),
{
    crate::text::lemma_first_nl(s);
    let i = crate::text::first_nl(s) as int;
    if i < s.len() {
        let x = s.take(i);
        let l0 = crate::text::strip_cr(x);
        let rest = s.skip(i + 1);
        assert(lines(s) == seq![l0] + lines(rest));
        if k > 0 {
            assert(lines(s)[k] == lines(rest)[k - 1]);
            lemma_lines_have_no_nl(rest, k - 1);
        } else {
            assert(lines(s)[0] == l0);
            assert forall|m: int| 0 <= m < l0.len() implies l0[m] != '\n' by {
                assert(l0[m] == x[m]);
            }
        }
    } else {
        assert(lines(s) == seq![s]);
        assert(lines(s)[0] == s);
    }
}

proof fn lemma_some_heading(ls: Seq<Seq<char>>, date: Seq<char>, fmt: Seq<char>, k: int)
    requires
        0 <= k < ls.len(),
        heading_date(ls[k], fmt) == Some(date),
    ensures
        date_heading_line(ls, date, fmt) is Some,
    decreases ls.len(),
{
    if heading_date(ls[0], fmt) != Some(date) {
        assert(k > 0);
        assert(ls.drop_first()[k - 1] == ls[k]);
        lemma_some_heading(ls.drop_first(), date, fmt, k - 1);
    }
}

} // verus!
