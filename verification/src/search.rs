//! Full-text search and backlinks, one markdown file at a time. The caller
//! walks the vault and hands each file's vault-relative path and text here;
//! hits accumulate in one list until it reaches the limit.
use crate::attachments::{after_last, after_last_exec};
use crate::calendar::{naive_date_parse, pat_iso};
use crate::datetime::valid_date;
use crate::names::{before_char, before_char_exec, link_key, spec_link_key, targets_from, wikilink_targets};
use crate::text::{
    chars_of, contains, contains_exec, contains_string, eq, eq_str, is_blank, lines, lines_of,
    lowercase, sv, take_chars, take_chars_exec, to_lowercase, to_string, trim, trim_exec, vv,
};
use vstd::prelude::*;

verus! {

/// One line of one file that contains the query.
#[derive(Clone, Debug)]
pub struct SearchHit {
    /// Vault-relative path with forward slashes, e.g. `days/2026-08-06.md`.
    pub path: String,
    /// The top-level directory: `days`, `raw`, `projects`, …
    pub kind: String,
    /// The file's date when its name is one, else empty.
    pub date: String,
    /// 1-based line number.
    pub line: usize,
    pub text: String,
}

/// One line of one file that wikilinks to the target.
#[derive(Clone, Debug)]
pub struct Backlink {
    /// Vault-relative path of the file that links here.
    pub path: String,
    pub kind: String,
    pub line: usize,
    pub text: String,
}

/// The top-level directory of a vault-relative path.
pub open spec fn rel_kind(rel: Seq<char>) -> Seq<char> {
    before_char(rel, '/')
}

/// What a hit shows of its line: trimmed, at most 300 characters.
pub open spec fn snippet(line: Seq<char>) -> Seq<char> {
    take_chars(trim(line), 300)
}

/// Indices, in order, of the lines among the first `n` that satisfy `p`.
pub open spec fn matching(ls: Seq<Seq<char>>, p: spec_fn(Seq<char>) -> bool, n: int) -> Seq<int>
    decreases n,
{
    if n <= 0 {
        seq![]
    } else if p(ls[n - 1]) {
        matching(ls, p, n - 1).push(n - 1)
    } else {
        matching(ls, p, n - 1)
    }
}

/// How many of `found` matches a file contributes to a list already holding
/// `held` entries: matches are added one by one and the search stops as soon
/// as an addition brings the list to `limit`.
pub open spec fn taken(found: nat, held: nat, limit: nat) -> nat {
    if found == 0 {
        0
    } else if held >= limit {
        1
    } else if found <= limit - held {
        found
    } else {
        (limit - held) as nat
    }
}

/// The search predicate: the lowercased line contains `q`.
pub open spec fn line_has(q: Seq<char>) -> spec_fn(Seq<char>) -> bool {
    |l: Seq<char>| contains(lowercase(l), q)
}

/// The backlink predicate: some wikilink on the line targets `want` or `short`.
pub open spec fn line_links(want: Seq<char>, short: Seq<char>) -> spec_fn(Seq<char>) -> bool {
    |l: Seq<char>| targets_from(l, 0).contains(want) || targets_from(l, 0).contains(short)
}

proof fn lemma_matching_bounds(ls: Seq<Seq<char>>, p: spec_fn(Seq<char>) -> bool, b: int)
    requires
        0 <= b,
    ensures
        matching(ls, p, b).len() <= b,
        forall|j: int|
            0 <= j < matching(ls, p, b).len() ==> 0 <= #[trigger] matching(ls, p, b)[j] < b,
    decreases b,
{
    if b > 0 {
        lemma_matching_bounds(ls, p, b - 1);
    }
}

proof fn lemma_matching_prefix(ls: Seq<Seq<char>>, p: spec_fn(Seq<char>) -> bool, a: int, b: int)
    requires
        0 <= a <= b,
    ensures
        matching(ls, p, a).len() <= matching(ls, p, b).len(),
        forall|j: int|
            0 <= j < matching(ls, p, a).len() ==> #[trigger] matching(ls, p, a)[j] == matching(
                ls,
                p,
                b,
            )[j],
        forall|j: int|
            0 <= j < matching(ls, p, b).len() ==> 0 <= #[trigger] matching(ls, p, b)[j] < b,
    decreases b - a,
{
    lemma_matching_bounds(ls, p, b);
    if a < b {
        lemma_matching_prefix(ls, p, a, b - 1);
    }
}

/// The query a search runs with: trimmed and lowercased; `None` when that
/// leaves nothing, in which case the search finds nothing.
pub fn search_query(query: &str) -> (r: Option<String>)
    ensures
        r matches Some(q) ==> q@ == lowercase(trim(query@)) && q@.len() > 0,
        r is None ==> lowercase(trim(query@)).len() == 0,
{
    let t = to_string(&trim_exec(&chars_of(query)));
    let q = to_lowercase(t.as_str());
    if chars_of(q.as_str()).len() == 0 {
        None
    } else {
        Some(q)
    }
}

/// Search skips the application's own files under `config/`.
pub fn search_skips(rel: &str) -> (r: bool)
    ensures
        r == (rel_kind(rel@) == "config"@),
{
    let k = before_char_exec(&chars_of(rel), '/');
    eq_str(&k, "config")
}

/// The date a hit carries: the file's stem when it is a `YYYY-MM-DD` date.
pub fn hit_date(stem: &str) -> (r: String)
    ensures
        naive_date_parse(stem@, pat_iso()) is Some ==> r@ == stem@,
        naive_date_parse(stem@, pat_iso()) is None ==> r@.len() == 0,
{
    match valid_date(stem) {
        Ok(_) => stem.to_string(),
        Err(_) => String::new(),
    }
}

/// Adds to `hits` the lines of one file that contain `q` (already
/// lowercased), in order, and says whether the list is now full. Returns
/// `true` exactly when this file added a hit that brought the list to
/// `limit`.
pub fn search_file(
    rel: &str,
    date: &str,
    text: &str,
    q: &str,
    limit: usize,
    hits: &mut Vec<SearchHit>,
) -> (full: bool)
    ensures
        ({
            let ls = lines(text@);
            let m = matching(ls, line_has(q@), ls.len() as int);
            let held = old(hits)@.len();
            let k = taken(m.len(), held, limit as nat);
            &&& final(hits)@.len() == held + k
            &&& final(hits)@.take(held as int) == old(hits)@
            &&& forall|j: int|
                0 <= j < k ==> {
                    let h = #[trigger] final(hits)@[held + j];
                    &&& h.path@ == rel@
                    &&& h.kind@ == rel_kind(rel@)
                    &&& h.date@ == date@
                    &&& h.line == m[j] + 1
                    &&& h.text@ == snippet(ls[m[j]])
                }
            &&& full == (k > 0 && held + k >= limit)
        }),
{
    let ls = lines_of(text);
    let qc = chars_of(q);
    let kind = to_string(&before_char_exec(&chars_of(rel), '/'));
    let ghost lsv = lines(text@);
    let ghost p = line_has(q@);
    let ghost start = hits@.len();
    let ghost orig = hits@;
    let mut i: usize = 0;
    while i < ls.len()
        invariant
            i <= ls.len(),
            vv(ls@) == lsv,
            lsv == lines(text@),
            p == line_has(q@),
            qc@ == q@,
            kind@ == rel_kind(rel@),
            start == old(hits)@.len(),
            orig == old(hits)@,
            hits@.len() == start + matching(lsv, p, i as int).len(),
            matching(lsv, p, i as int).len() == 0 || start + matching(lsv, p, i as int).len()
                < limit,
            hits@.take(start as int) == orig,
            forall|j: int|
                0 <= j < matching(lsv, p, i as int).len() ==> {
                    let h = #[trigger] hits@[start + j];
                    &&& h.path@ == rel@
                    &&& h.kind@ == rel_kind(rel@)
                    &&& h.date@ == date@
                    &&& h.line == matching(lsv, p, i as int)[j] + 1
                    &&& h.text@ == snippet(lsv[matching(lsv, p, i as int)[j]])
                }
        ensures
            hits@.len() == start + taken(matching(lsv, p, lsv.len() as int).len(), start, limit as nat),
            hits@.take(start as int) == orig,
            forall|j: int|
                0 <= j < taken(matching(lsv, p, lsv.len() as int).len(), start, limit as nat) ==> {
                    let h = #[trigger] hits@[start + j];
                    &&& h.path@ == rel@
                    &&& h.kind@ == rel_kind(rel@)
                    &&& h.date@ == date@
                    &&& h.line == matching(lsv, p, lsv.len() as int)[j] + 1
                    &&& h.text@ == snippet(lsv[matching(lsv, p, lsv.len() as int)[j]])
                },
        decreases ls.len() - i,
    {
        let line = &ls[i];
        let ls_str = to_string(line);
        let lower = to_lowercase(ls_str.as_str());
        let lc = chars_of(lower.as_str());
        if contains_exec(&lc, &qc) {
            let snip = take_chars_exec(&trim_exec(line), 300);
            let hit = SearchHit {
                path: rel.to_string(),
                kind: kind.clone(),
                date: date.to_string(),
                line: i + 1,
                text: to_string(&snip),
            };
            let ghost before = hits@;
            hits.push(hit);
            proof {
                assert(lsv[i as int] == line@);
                assert(matching(lsv, p, i + 1) == matching(lsv, p, i as int).push(i as int));
                assert(hits@.take(start as int) =~= before.take(start as int));
            }
            if hits.len() >= limit {
                proof {
                    lemma_matching_prefix(lsv, p, i + 1, lsv.len() as int);
                    let mi = matching(lsv, p, i + 1);
                    let mn = matching(lsv, p, lsv.len() as int);
                    assert(taken(mn.len(), start, limit as nat) == mi.len());
                    assert forall|j: int| 0 <= j < mi.len() implies mi[j] == mn[j] by {}
                }
                return true;
            }
        } else {
            proof {
                assert(lsv[i as int] == line@);
            }
        }
        i = i + 1;
    }
    proof {
        lemma_matching_prefix(lsv, p, i as int, lsv.len() as int);
    }
    false
}

/// What a backlink search looks for: the link key of `target`, and its
/// last path segment (the short form `[[daybook]]` of `[[projects/daybook]]`).
/// `None` when the key is empty, in which case nothing links there.
pub fn backlink_target(target: &str) -> (r: Option<(String, String)>)
    ensures
        r matches Some((w, s)) ==> w@ == spec_link_key(target@) && w@.len() > 0 && s@
            == after_last(w@, '/'),
        r is None ==> spec_link_key(target@).len() == 0,
{
    let want = link_key(&chars_of(target));
    if chars_of(want.as_str()).len() == 0 {
        None
    } else {
        let short = to_string(&after_last_exec(&chars_of(want.as_str()), '/'));
        Some((want, short))
    }
}

/// Backlinks skip the application's files, untriaged inbox text, and the
/// target's own page.
pub fn backlink_skips(rel: &str, want: &str) -> (r: bool)
    ensures
        r == (rel_kind(rel@) == "config"@ || rel_kind(rel@) == "inbox"@ || spec_link_key(rel@)
            == want@),
{
    let rc = chars_of(rel);
    let k = before_char_exec(&rc, '/');
    let key = link_key(&rc);
    eq_str(&k, "config") || eq_str(&k, "inbox") || eq(&chars_of(key.as_str()), &chars_of(want))
}

/// Whether some wikilink on `line` targets `want` or `short`.
fn links_to(line: &[char], want: &[char], short: &[char]) -> (r: bool)
    ensures
        r == line_links(want@, short@)(line@),
{
    let ts = wikilink_targets(line);
    proof {
        assert(ts@.map_values(|t: String| t@) == sv(ts@));
    }
    contains_string(&ts, want) || contains_string(&ts, short)
}

/// Adds to `out` the lines of one file that wikilink to `want` or `short`,
/// in order, and says whether the list is now full, as `search_file` does.
pub fn backlinks_in_file(
    rel: &str,
    text: &str,
    want: &str,
    short: &str,
    limit: usize,
    out: &mut Vec<Backlink>,
) -> (full: bool)
    ensures
        ({
            let ls = lines(text@);
            let m = matching(ls, line_links(want@, short@), ls.len() as int);
            let held = old(out)@.len();
            let k = taken(m.len(), held, limit as nat);
            &&& final(out)@.len() == held + k
            &&& final(out)@.take(held as int) == old(out)@
            &&& forall|j: int|
                0 <= j < k ==> {
                    let h = #[trigger] final(out)@[held + j];
                    &&& h.path@ == rel@
                    &&& h.kind@ == rel_kind(rel@)
                    &&& h.line == m[j] + 1
                    &&& h.text@ == snippet(ls[m[j]])
                }
            &&& full == (k > 0 && held + k >= limit)
        }),
{
    let ls = lines_of(text);
    let wc = chars_of(want);
    let sc = chars_of(short);
    let kind = to_string(&before_char_exec(&chars_of(rel), '/'));
    let ghost lsv = lines(text@);
    let ghost p = line_links(want@, short@);
    let ghost start = out@.len();
    let ghost orig = out@;
    let mut i: usize = 0;
    while i < ls.len()
        invariant
            i <= ls.len(),
            vv(ls@) == lsv,
            lsv == lines(text@),
            p == line_links(want@, short@),
            wc@ == want@,
            sc@ == short@,
            kind@ == rel_kind(rel@),
            start == old(out)@.len(),
            orig == old(out)@,
            out@.len() == start + matching(lsv, p, i as int).len(),
            matching(lsv, p, i as int).len() == 0 || start + matching(lsv, p, i as int).len()
                < limit,
            out@.take(start as int) == orig,
            forall|j: int|
                0 <= j < matching(lsv, p, i as int).len() ==> {
                    let h = #[trigger] out@[start + j];
                    &&& h.path@ == rel@
                    &&& h.kind@ == rel_kind(rel@)
                    &&& h.line == matching(lsv, p, i as int)[j] + 1
                    &&& h.text@ == snippet(lsv[matching(lsv, p, i as int)[j]])
                }
        ensures
            out@.len() == start + taken(matching(lsv, p, lsv.len() as int).len(), start, limit as nat),
            out@.take(start as int) == orig,
            forall|j: int|
                0 <= j < taken(matching(lsv, p, lsv.len() as int).len(), start, limit as nat) ==> {
                    let h = #[trigger] out@[start + j];
                    &&& h.path@ == rel@
                    &&& h.kind@ == rel_kind(rel@)
                    &&& h.line == matching(lsv, p, lsv.len() as int)[j] + 1
                    &&& h.text@ == snippet(lsv[matching(lsv, p, lsv.len() as int)[j]])
                },
        decreases ls.len() - i,
    {
        let line = &ls[i];
        if links_to(line, &wc, &sc) {
            let snip = take_chars_exec(&trim_exec(line), 300);
            let b = Backlink {
                path: rel.to_string(),
                kind: kind.clone(),
                line: i + 1,
                text: to_string(&snip),
            };
            let ghost before = out@;
            out.push(b);
            proof {
                assert(lsv[i as int] == line@);
                assert(matching(lsv, p, i + 1) == matching(lsv, p, i as int).push(i as int));
                assert(out@.take(start as int) =~= before.take(start as int));
            }
            if out.len() >= limit {
                proof {
                    lemma_matching_prefix(lsv, p, i + 1, lsv.len() as int);
                    let mi = matching(lsv, p, i + 1);
                    let mn = matching(lsv, p, lsv.len() as int);
                    assert(taken(mn.len(), start, limit as nat) == mi.len());
                    assert forall|j: int| 0 <= j < mi.len() implies mi[j] == mn[j] by {}
                }
                return true;
            }
        } else {
            proof {
                assert(lsv[i as int] == line@);
            }
        }
        i = i + 1;
    }
    proof {
        lemma_matching_prefix(lsv, p, i as int, lsv.len() as int);
    }
    false
}


/// The trash never leaks back into a view: every file kept under
/// `config/trash/` (by a name that is not itself an absolute path) is one
/// that the search skips (`search_skips`) and that the backlink scan skips
/// (`backlink_skips`), whatever link is wanted.
pub proof fn law_trash_stays_out_of_views(name: Seq<char>)
    requires
        name.len() == 0 || name[0] != '/',
    ensures
        rel_kind(crate::paths::spec_join(crate::paths::spec_join("config"@, "trash"@), name)) == "config"@,
{
    reveal_strlit("config");
    reveal_strlit("trash");
    reveal_strlit("/");
    let rel = crate::paths::spec_join(crate::paths::spec_join("config"@, "trash"@), name);
    assert(rel =~= "config"@ + seq!['/'] + "trash"@ + seq!['/'] + name);
    let slash = seq!['/'];
    assert(crate::text::occurs_at(rel, slash, 6)) by {
        assert(rel.subrange(6, 7) =~= slash);
    }
    assert forall|j: int| 0 <= j < 6 implies !crate::text::occurs_at(rel, slash, j) by {
        assert(rel.subrange(j, j + 1)[0] == rel[j]);
        assert(rel[j] == "config"@[j]);
    }
    crate::text::lemma_find_unique(rel, slash, 6);
    assert(rel.take(6) =~= "config"@);
}

} // verus!
