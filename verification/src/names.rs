//! Names derived from text: page slugs, capture ids as file names, and the
//! keys wikilinks and vault paths are compared by.
use crate::text::{
    chars_of, find, find_str, is_alphanumeric, alphanumeric, lowercase, slice_of, to_lowercase,
    to_string, trim, trim_exec, vv,
};
use vstd::prelude::*;

verus! {

/// What `slugify` has built after reading `cs`, and whether it last wrote a
/// dash: letters and digits are kept, every other run becomes one dash
/// (none at the start).
pub open spec fn slug_scan(cs: Seq<char>) -> (Seq<char>, bool)
    decreases cs.len(),
{
    if cs.len() == 0 {
        (seq![], false)
    } else {
        let (o, dash) = slug_scan(cs.drop_last());
        let c = cs.last();
        if alphanumeric(c) {
            (o.push(c), false)
        } else if !dash && o.len() > 0 {
            (o.push('-'), true)
        } else {
            (o, dash)
        }
    }
}

pub open spec fn drop_trailing_dashes(s: Seq<char>) -> Seq<char>
    decreases s.len(),
{
    if s.len() > 0 && s.last() == '-' {
        drop_trailing_dashes(s.drop_last())
    } else {
        s
    }
}

pub open spec fn spec_slugify(s: Seq<char>) -> Seq<char> {
    let o = drop_trailing_dashes(slug_scan(lowercase(trim(s))).0);
    if o.len() == 0 {
        "untitled"@
    } else {
        o
    }
}

pub open spec fn ascii_alnum(c: char) -> bool {
    ('0' <= c && c <= '9') || ('a' <= c && c <= 'z') || ('A' <= c && c <= 'Z')
}

/// ASCII letters, digits and `-`, in order.
pub open spec fn spec_sanitize_id(id: Seq<char>) -> Seq<char>
    decreases id.len(),
{
    if id.len() == 0 {
        seq![]
    } else {
        let rest = spec_sanitize_id(id.drop_last());
        let c = id.last();
        if ascii_alnum(c) || c == '-' {
            rest.push(c)
        } else {
            rest
        }
    }
}

/// `replace('\\', "/")`.
pub open spec fn forward_slashes(s: Seq<char>) -> Seq<char> {
    s.map_values(|c: char| if c == '\\' { '/' } else { c })
}

/// `trim_start_matches(p)`.
pub open spec fn trim_start_all(s: Seq<char>, p: Seq<char>) -> Seq<char>
    decreases s.len(),
{
    if p.len() > 0 && p.len() <= s.len() && s.take(p.len() as int) == p {
        trim_start_all(s.skip(p.len() as int), p)
    } else {
        s
    }
}

/// `trim_end_matches(p)`.
pub open spec fn trim_end_all(s: Seq<char>, p: Seq<char>) -> Seq<char>
    decreases s.len(),
{
    if p.len() > 0 && p.len() <= s.len() && s.skip(s.len() - p.len()) == p {
        trim_end_all(s.take(s.len() - p.len()), p)
    } else {
        s
    }
}

/// A wikilink target or a vault-relative path as a comparable key:
/// lowercase, forward slashes, no `.md`, no leading `./` or `/`.
pub open spec fn spec_link_key(s: Seq<char>) -> Seq<char> {
    lowercase(
        trim_end_all(
            trim_start_all(trim_start_all(forward_slashes(trim(s)), "./"@), "/"@),
            ".md"@,
        ),
    )
}

/// The part before the first `c` (all of it when there is none).
pub open spec fn before_char(s: Seq<char>, c: char) -> Seq<char> {
    match find(s, seq![c]) {
        Some(i) => s.take(i),
        None => s,
    }
}

/// Link targets on a line from index `i` on.
pub open spec fn targets_from(line: Seq<char>, i: int) -> Seq<Seq<char>>
    decreases line.len() - i,
{
    if i < 0 || i + 1 >= line.len() {
        seq![]
    } else if line[i] == '[' && line[i + 1] == '[' && find(line.skip(i + 2), "]]"@) is Some {
        let end = find(line.skip(i + 2), "]]"@)->0;
        proof {
            reveal_strlit("]]");
            crate::text::lemma_find_props(line.skip(i + 2), "]]"@);
        }
        let inner = before_char(before_char(line.skip(i + 2).take(end), '|'), '#');
        let rest = targets_from(line, i + 2 + end + 2);
        if trim(inner).len() > 0 {
            seq![spec_link_key(inner)] + rest
        } else {
            rest
        }
    } else {
        targets_from(line, i + 1)
    }
}

// ------------------------------------------------------------------ exec

/// A page slug: trimmed, lowercased, letters and digits kept, every other
/// run turned into one dash, no dash at either end; `untitled` when nothing
/// is left.
pub fn slugify(s: &str) -> (r: String)
    ensures
        r@ == spec_slugify(s@),
        r@.len() > 0,
{
    let cs = chars_of(s);
    let t = to_string(&trim_exec(&cs));
    let low = to_lowercase(t.as_str());
    let lc = chars_of(low.as_str());
    let mut out: Vec<char> = Vec::new();
    let mut dash = false;
    let mut i: usize = 0;
    while i < lc.len()
        invariant
            0 <= i <= lc.len(),
            lc@ == lowercase(trim(s@)),
            (out@, dash) == slug_scan(lc@.take(i as int)),
        decreases lc.len() - i,
    {
        proof {
            assert(lc@.take(i + 1).drop_last() =~= lc@.take(i as int));
        }
        let ch = lc[i];
        if is_alphanumeric(ch) {
            out.push(ch);
            dash = false;
        } else if !dash && out.len() > 0 {
            out.push('-');
            dash = true;
        }
        i += 1;
    }
    proof {
        assert(lc@.take(lc.len() as int) =~= lc@);
    }
    while out.len() > 0 && out[out.len() - 1] == '-'
        invariant
            drop_trailing_dashes(out@) == drop_trailing_dashes(slug_scan(lowercase(trim(s@))).0),
        decreases out.len(),
    {
        out.pop();
    }
    if out.len() == 0 {
        proof {
            reveal_strlit("untitled");
        }
        "untitled".to_string()
    } else {
        to_string(&out)
    }
}

/// Letters and digits joined by single dashes: not empty, no dash at either
/// end, no two dashes in a row.
pub open spec fn slug_shaped(s: Seq<char>) -> bool {
    &&& s.len() > 0
    &&& forall|i: int| 0 <= i < s.len() ==> alphanumeric(#[trigger] s[i]) || s[i] == '-'
    &&& s[0] != '-'
    &&& s.last() != '-'
    &&& forall|i: int, j: int|
        #![trigger s[i], s[j]]
        0 <= i && j == i + 1 && j < s.len() ==> !(s[i] == '-' && s[j] == '-')
}

/// Whether the text holds a letter or digit.
pub open spec fn has_alphanumeric(cs: Seq<char>) -> bool {
    exists|k: int| 0 <= k < cs.len() && alphanumeric(#[trigger] cs[k])
}

proof fn lemma_slug_scan(cs: Seq<char>)
    requires
        !alphanumeric('-'),
    ensures
        ({
            let (o, dash) = slug_scan(cs);
            &&& forall|i: int| 0 <= i < o.len() ==> alphanumeric(#[trigger] o[i]) || o[i] == '-'
            &&& o.len() > 0 ==> alphanumeric(o[0])
            &&& dash <==> (o.len() > 0 && o.last() == '-')
            &&& forall|i: int, j: int|
                #![trigger o[i], o[j]]
                0 <= i && j == i + 1 && j < o.len() ==> !(o[i] == '-' && o[j] == '-')
            &&& (o.len() > 0 <==> has_alphanumeric(cs))
        }),
    decreases cs.len(),
{
    if cs.len() > 0 {
        let pre = cs.drop_last();
        lemma_slug_scan(pre);
        let (o0, d0) = slug_scan(pre);
        let c = cs.last();
        if has_alphanumeric(pre) {
            let k = choose|k: int| 0 <= k < pre.len() && alphanumeric(#[trigger] pre[k]);
            assert(cs[k] == pre[k]);
        }
        if has_alphanumeric(cs) {
            let k = choose|k: int| 0 <= k < cs.len() && alphanumeric(#[trigger] cs[k]);
            if k < pre.len() {
                assert(pre[k] == cs[k]);
            }
        }
        if alphanumeric(c) {
            assert(cs[cs.len() - 1] == c);
            let o = o0.push(c);
            assert forall|i: int| 0 <= i < o.len() implies alphanumeric(#[trigger] o[i]) || o[i] == '-' by {
                if i < o0.len() {
                    assert(o[i] == o0[i]);
                }
            }
            assert forall|i: int, j: int| 0 <= i && j == i + 1 && j < o.len() implies !(#[trigger] o[i] == '-'
                && #[trigger] o[j] == '-') by {
                if j < o0.len() {
                    assert(o[i] == o0[i] && o[j] == o0[j]);
                }
            }
        } else if !d0 && o0.len() > 0 {
            let o = o0.push('-');
            assert forall|i: int| 0 <= i < o.len() implies alphanumeric(#[trigger] o[i]) || o[i] == '-' by {
                if i < o0.len() {
                    assert(o[i] == o0[i]);
                }
            }
            assert forall|i: int, j: int| 0 <= i && j == i + 1 && j < o.len() implies !(#[trigger] o[i] == '-'
                && #[trigger] o[j] == '-') by {
                if j < o0.len() {
                    assert(o[i] == o0[i] && o[j] == o0[j]);
                } else {
                    assert(o[i] == o0.last());
                }
            }
        }
    }
}

proof fn lemma_drop_trailing_dashes(o: Seq<char>)
    requires
        o.len() > 0 ==> o[0] != '-',
    ensures
        drop_trailing_dashes(o).len() <= o.len(),
        drop_trailing_dashes(o) == o.take(drop_trailing_dashes(o).len() as int),
        o.len() > 0 ==> drop_trailing_dashes(o).len() > 0 && drop_trailing_dashes(o).last() != '-',
    decreases o.len(),
{
    if o.len() > 0 && o.last() == '-' {
        let d = o.drop_last();
        assert(d.len() > 0 ==> d[0] == o[0]);
        lemma_drop_trailing_dashes(d);
        let r = drop_trailing_dashes(d);
        assert(r =~= o.take(r.len() as int));
    } else {
        assert(o.take(o.len() as int) =~= o);
    }
}

/// A slug is letters and digits joined by single dashes (never empty, no
/// dash at either end, no two dashes in a row), and it is `untitled` when
/// the trimmed, lowercased text holds no letter or digit. Stated for a
/// `char::is_alphanumeric` that says no to `-`, as it does.
pub proof fn law_slug_shape(s: Seq<char>)
    requires
        !alphanumeric('-'),
    ensures
        has_alphanumeric(lowercase(trim(s))) ==> slug_shaped(spec_slugify(s)),
        !has_alphanumeric(lowercase(trim(s))) ==> spec_slugify(s) == "untitled"@,
{
    let cs = lowercase(trim(s));
    lemma_slug_scan(cs);
    let o = slug_scan(cs).0;
    lemma_drop_trailing_dashes(o);
    let r = drop_trailing_dashes(o);
    if has_alphanumeric(cs) {
        assert(r.len() > 0);
        assert(r[0] == o[0]);
        assert forall|i: int| 0 <= i < r.len() implies alphanumeric(#[trigger] r[i]) || r[i] == '-' by {
            assert(r[i] == o[i]);
        }
        assert forall|i: int, j: int| 0 <= i && j == i + 1 && j < r.len() implies !(#[trigger] r[i] == '-'
            && #[trigger] r[j] == '-') by {
            assert(r[i] == o[i] && r[j] == o[j]);
        }
        assert(spec_slugify(s) == r);
    } else {
        assert(o.len() == 0);
        assert(r.len() == 0);
    }
}

/// A capture id as it may be used in a file name: ASCII letters, digits and
/// dashes only.
pub fn sanitize_id(id: &str) -> (r: String)
    ensures
        r@ == spec_sanitize_id(id@),
{
    let cs = chars_of(id);
    let mut out: Vec<char> = Vec::new();
    let mut i: usize = 0;
    while i < cs.len()
        invariant
            0 <= i <= cs.len(),
            cs@ == id@,
            out@ == spec_sanitize_id(cs@.take(i as int)),
        decreases cs.len() - i,
    {
        proof {
            assert(cs@.take(i + 1).drop_last() =~= cs@.take(i as int));
        }
        let c = cs[i];
        if ('0' <= c && c <= '9') || ('a' <= c && c <= 'z') || ('A' <= c && c <= 'Z') || c == '-' {
            out.push(c);
        }
        i += 1;
    }
    proof {
        assert(cs@.take(cs.len() as int) =~= cs@);
    }
    to_string(&out)
}

pub fn forward_slashes_exec(s: &[char]) -> (r: Vec<char>)
    ensures
        r@ == forward_slashes(s@),
{
    let mut out: Vec<char> = Vec::new();
    let mut i: usize = 0;
    while i < s.len()
        invariant
            0 <= i <= s.len(),
            out@ == forward_slashes(s@.take(i as int)),
        decreases s.len() - i,
    {
        let c = s[i];
        out.push(if c == '\\' { '/' } else { c });
        proof {
            assert(out@ =~= forward_slashes(s@.take(i + 1)));
        }
        i += 1;
    }
    proof {
        assert(s@.take(s.len() as int) =~= s@);
    }
    out
}

pub fn trim_start_all_exec(s: &[char], p: &str) -> (r: Vec<char>)
    ensures
        r@ == trim_start_all(s@, p@),
{
    let pc = chars_of(p);
    let mut lo: usize = 0;
    proof {
        assert(s@.skip(0) =~= s@);
    }
    while pc.len() > 0 && pc.len() <= s.len() - lo && crate::text::occurs_at_exec(s, &pc, lo)
        invariant
            lo <= s.len(),
            pc@ == p@,
            trim_start_all(s@, p@) == trim_start_all(s@.skip(lo as int), p@),
        decreases s.len() - lo,
    {
        proof {
            let t = s@.skip(lo as int);
            assert(t.take(p@.len() as int) =~= s@.subrange(lo as int, lo + p@.len()));
            assert(t.skip(p@.len() as int) =~= s@.skip(lo + p@.len()));
        }
        lo = lo + pc.len();
    }
    proof {
        let t = s@.skip(lo as int);
        if pc@.len() > 0 && lo + pc@.len() <= s@.len() {
            assert(t.take(p@.len() as int) =~= s@.subrange(lo as int, lo + p@.len()));
        }
    }
    slice_of(s, lo, s.len())
}

pub fn trim_end_all_exec(s: &[char], p: &str) -> (r: Vec<char>)
    ensures
        r@ == trim_end_all(s@, p@),
{
    let pc = chars_of(p);
    let mut hi: usize = s.len();
    proof {
        assert(s@.take(s.len() as int) =~= s@);
    }
    while pc.len() > 0 && pc.len() <= hi && crate::text::occurs_at_exec(s, &pc, hi - pc.len())
        invariant
            hi <= s.len(),
            pc@ == p@,
            trim_end_all(s@, p@) == trim_end_all(s@.take(hi as int), p@),
        decreases hi,
    {
        proof {
            let t = s@.take(hi as int);
            assert(t.skip(t.len() - p@.len()) =~= s@.subrange(hi - p@.len(), hi as int));
            assert(t.take(t.len() - p@.len()) =~= s@.take(hi - p@.len()));
        }
        hi = hi - pc.len();
    }
    proof {
        let t = s@.take(hi as int);
        if pc@.len() > 0 && pc@.len() <= hi {
            assert(t.skip(t.len() - p@.len()) =~= s@.subrange(hi - p@.len(), hi as int));
        }
    }
    slice_of(s, 0, hi)
}

/// Normalize a wikilink target or a vault-relative path to a comparable key.
pub fn link_key(s: &[char]) -> (r: String)
    ensures
        r@ == spec_link_key(s@),
{
    let t = trim_exec(s);
    let f = forward_slashes_exec(&t);
    let a = trim_start_all_exec(&f, "./");
    let b = trim_start_all_exec(&a, "/");
    let c = trim_end_all_exec(&b, ".md");
    let cs = to_string(&c);
    to_lowercase(cs.as_str())
}

pub fn before_char_exec(s: &[char], c: char) -> (r: Vec<char>)
    ensures
        r@ == before_char(s@, c),
{
    let mut i: usize = 0;
    while i < s.len() && s[i] != c
        invariant
            0 <= i <= s.len(),
            forall|j: int| 0 <= j < i ==> s@[j] != c,
        decreases s.len() - i,
    {
        i += 1;
    }
    proof {
        let p = seq![c];
        assert forall|j: int| 0 <= j < i implies !crate::text::occurs_at(s@, p, j) by {
            if crate::text::occurs_at(s@, p, j) {
                assert(s@.subrange(j, j + 1)[0] == s@[j]);
            }
        }
        if i < s.len() {
            assert(s@.subrange(i as int, i + 1) =~= p);
            crate::text::lemma_find_unique(s@, p, i as int);
        } else {
            crate::text::lemma_find_props(s@, p);
            match find(s@, p) {
                Some(k) => {
                    assert(s@.subrange(k, k + 1)[0] == s@[k]);
                },
                None => {},
            }
            assert(s@.take(i as int) =~= s@);
        }
    }
    slice_of(s, 0, i)
}

/// The target of every `[[…]]` on a line, without `|alias` or `#anchor`,
/// each normalized with `link_key`.
pub fn wikilink_targets(line: &[char]) -> (r: Vec<String>)
    ensures
        r@.map_values(|t: String| t@) == targets_from(line@, 0),
{
    let mut out: Vec<String> = Vec::new();
    let mut i: usize = 0;
    proof {
        assert(out@.map_values(|t: String| t@) + targets_from(line@, 0) =~= targets_from(line@, 0));
    }
    while i < line.len() && 1 < line.len() - i
        invariant
            i <= line.len(),
            out@.map_values(|t: String| t@) + targets_from(line@, i as int) == targets_from(
                line@,
                0,
            ),
        decreases line.len() - i,
    {
        let ghost before = out@.map_values(|t: String| t@);
        if line[i] == '[' && line[i + 1] == '[' {
            let rest = slice_of(line, i + 2, line.len());
            proof {
                assert(rest@ =~= line@.skip(i + 2));
            }
            match find_str(&rest, "]]") {
                Some(end) => {
                    proof {
                        reveal_strlit("]]");
                        crate::text::lemma_find_props(rest@, "]]"@);
                    }
                    let head = slice_of(&rest, 0, end);
                    let a = before_char_exec(&head, '|');
                    let b = before_char_exec(&a, '#');
                    let bt = trim_exec(&b);
                    if bt.len() > 0 {
                        let k = link_key(&b);
                        out.push(k);
                        proof {
                            assert(out@.map_values(|t: String| t@) =~= before.push(k@));
                            assert(before.push(k@) + targets_from(line@, i + 2 + end + 2) =~= before
                                + (seq![k@] + targets_from(line@, i + 2 + end + 2)));
                        }
                    }
                    i = i + 2 + end + 2;
                    continue;
                },
                None => {},
            }
        }
        i += 1;
    }
    proof {
        assert(out@.map_values(|t: String| t@) + Seq::<Seq<char>>::empty() =~= out@.map_values(
            |t: String| t@,
        ));
    }
    out
}

} // verus!
