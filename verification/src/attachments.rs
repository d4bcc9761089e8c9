//! Attachments: the `attachments/…` references a capture carries, how they
//! are embedded back into rewritten text, and the names and paths they are
//! stored and read under.
use crate::names::{forward_slashes, forward_slashes_exec};
use crate::paths::spec_join;
use crate::text::{
    chars_of, contains, contains_str, ends_with, ends_with_str, find, find_exec, lowercase,
    push_all, push_str, slice_of, starts_with, starts_with_str, to_lowercase, to_string, trim,
    trim_end, trim_exec, ascii_lower, all_ascii, occurs_at, take_chars, take_chars_exec,
};
use vstd::prelude::*;

verus! {

pub open spec fn is_stop(c: char) -> bool {
    c == ')' || c == '"' || c == ' ' || c == '\n'
}

/// Where a reference ends: the first `)`, `"`, space or line break.
pub open spec fn stop_index(t: Seq<char>) -> int
    decreases t.len(),
{
    if t.len() == 0 || is_stop(t[0]) {
        0
    } else {
        1 + stop_index(t.drop_first())
    }
}

pub proof fn lemma_stop_index(t: Seq<char>)
    ensures
        0 <= stop_index(t) <= t.len(),
        stop_index(t) < t.len() ==> is_stop(t[stop_index(t)]),
        forall|j: int| 0 <= j < stop_index(t) ==> !is_stop(t[j]),
    decreases t.len(),
{
    if t.len() > 0 && !is_stop(t[0]) {
        lemma_stop_index(t.drop_first());
        assert forall|j: int| 0 <= j < stop_index(t) implies !is_stop(t[j]) by {
            if j > 0 {
                assert(t[j] == t.drop_first()[j - 1]);
            }
        }
    }
}

/// The references found from index `from` on, added to `acc` unless
/// already there.
pub open spec fn refs_from(t: Seq<char>, from: int, acc: Seq<Seq<char>>) -> Seq<Seq<char>>
    decreases t.len() + 1 - from,
{
    if from < 0 || from > t.len() {
        acc
    } else {
        match find(t.skip(from), "attachments/"@) {
            None => acc,
            Some(i) => {
                proof {
                    crate::text::lemma_find_props(t.skip(from), "attachments/"@);
                    lemma_stop_index(t.skip(from + i));
                    crate::text::lemma_trim_start_edges(t.skip(from + i).take(stop_index(t.skip(from + i))));
                    crate::text::lemma_trim_end_edges(crate::text::trim_start(t.skip(from + i).take(stop_index(t.skip(from + i)))));
                }
                let start = from + i;
                let tail = t.skip(start);
                let path = trim(tail.take(stop_index(tail)));
                let acc2 = if path.len() > 0 && !acc.contains(path) {
                    acc.push(path)
                } else {
                    acc
                };
                let next = if path.len() > 0 {
                    start + path.len()
                } else {
                    start + 1
                };
                refs_from(t, next, acc2)
            },
        }
    }
}

/// Markdown references like `![](attachments/foo.png)`, each once, in order.
pub open spec fn spec_extract_attachment_refs(text: Seq<char>) -> Seq<Seq<char>> {
    refs_from(text, 0, seq![])
}

/// `s.rsplit(c).next()`: the part after the last `c`, or all of `s`.
pub open spec fn after_last(s: Seq<char>, c: char) -> Seq<char>
    decreases s.len(),
{
    if s.len() == 0 {
        s
    } else if s.last() == c {
        seq![]
    } else {
        after_last(s.drop_last(), c).push(s.last())
    }
}

pub open spec fn image_exts() -> Seq<Seq<char>> {
    seq![".png"@, ".jpg"@, ".jpeg"@, ".gif"@, ".webp"@, ".bmp"@, ".svg"@]
}

/// The path, lowercased, ends in an image extension.
pub open spec fn spec_is_image_ref(rel: Seq<char>) -> bool {
    exists|k: int| 0 <= k < image_exts().len() && ends_with(lowercase(rel), #[trigger] image_exts()[k])
}

pub open spec fn spec_attachment_mime(rel: Seq<char>) -> Seq<char> {
    let ext = lowercase(after_last(rel, '.'));
    if ext == "jpg"@ || ext == "jpeg"@ {
        "image/jpeg"@
    } else if ext == "gif"@ {
        "image/gif"@
    } else if ext == "webp"@ {
        "image/webp"@
    } else {
        "image/png"@
    }
}

/// How a reference is written back: images embedded, anything else linked
/// under its file name.
pub open spec fn ref_markdown(rel: Seq<char>) -> Seq<char> {
    if spec_is_image_ref(rel) {
        "![]("@ + rel + ")"@
    } else {
        "["@ + after_last(rel, '/') + "]("@ + rel + ")"@
    }
}

/// `out` with every reference of `refs` it does not already mention added,
/// separated by a blank line.
pub open spec fn add_refs(out: Seq<char>, refs: Seq<Seq<char>>) -> Seq<char>
    decreases refs.len(),
{
    if refs.len() == 0 {
        out
    } else {
        let o = add_refs(out, refs.drop_last());
        let rel = refs.last();
        if contains(o, rel) {
            o
        } else if o.len() > 0 {
            o + "\n\n"@ + ref_markdown(rel)
        } else {
            ref_markdown(rel)
        }
    }
}

pub open spec fn spec_ensure_attachment_markdown(original: Seq<char>, body: Seq<char>) -> Seq<char> {
    let refs = spec_extract_attachment_refs(original);
    if refs.len() == 0 {
        body
    } else {
        let o = add_refs(trim_end(body), refs);
        if o.len() > 0 {
            o.push('\n')
        } else {
            o
        }
    }
}

/// What `base64::engine::general_purpose::STANDARD.encode` gives for these
/// bytes.
pub uninterp spec fn base64_standard(bytes: Seq<u8>) -> Seq<char>;

/// A vault-relative path as given: trimmed, with forward slashes.
pub open spec fn clean_rel(rel: Seq<char>) -> Seq<char> {
    forward_slashes(trim(rel))
}

/// `vault_abs`: the cleaned relative path, unless it holds `..` or starts
/// with `/` (either would lead out of the vault).
pub open spec fn spec_vault_rel(rel: Seq<char>) -> Result<Seq<char>, Seq<char>> {
    let r = clean_rel(rel);
    if contains(r, ".."@) || (r.len() > 0 && r[0] == '/') {
        Err("Invalid path"@)
    } else {
        Ok(r)
    }
}

/// Attachment reads are held to `attachments/` and may not climb out of it.
pub open spec fn spec_attachment_rel(rel: Seq<char>) -> Result<Seq<char>, Seq<char>> {
    let r = clean_rel(rel);
    if contains(r, ".."@) || !starts_with(r, "attachments/"@) {
        Err("Invalid attachment path: "@ + r)
    } else {
        Ok(r)
    }
}

/// The ASCII letters and digits of `s`, at most `n` of them.
pub open spec fn alnum_take(s: Seq<char>, n: nat) -> Seq<char>
    decreases s.len(),
{
    if s.len() == 0 {
        seq![]
    } else {
        let rest = alnum_take(s.drop_last(), n);
        if crate::names::ascii_alnum(s.last()) && rest.len() < n {
            rest.push(s.last())
        } else {
            rest
        }
    }
}

/// `trim_start_matches('.')`.
pub open spec fn drop_leading_dots(s: Seq<char>) -> Seq<char>
    decreases s.len(),
{
    if s.len() > 0 && s[0] == '.' {
        drop_leading_dots(s.drop_first())
    } else {
        s
    }
}

/// The extension a pasted image is stored with: up to five ASCII letters or
/// digits, `png` when none are given.
pub open spec fn spec_attachment_ext(ext: Seq<char>) -> Seq<char> {
    let e = alnum_take(drop_leading_dots(ext), 5);
    if e.len() == 0 {
        "png"@
    } else {
        e
    }
}

// ------------------------------------------------------------------ exec

fn stop_index_exec(t: &[char]) -> (r: usize)
    ensures
        r == stop_index(t@),
{
    let mut i: usize = 0;
    proof {
        assert(t@.skip(0) =~= t@);
    }
    while i < t.len() && !(t[i] == ')' || t[i] == '"' || t[i] == ' ' || t[i] == '\n')
        invariant
            0 <= i <= t.len(),
            stop_index(t@) == i + stop_index(t@.skip(i as int)),
        decreases t.len() - i,
    {
        proof {
            assert(t@.skip(i as int).drop_first() =~= t@.skip(i + 1));
        }
        i += 1;
    }
    i
}

/// Markdown references like `![](attachments/foo.png)`, each once, in order.
pub fn extract_attachment_refs(text: &str) -> (r: Vec<String>)
    ensures
        r@.map_values(|s: String| s@) == spec_extract_attachment_refs(text@),
{
    let tc = chars_of(text);
    let mut out: Vec<String> = Vec::new();
    let mut from: usize = 0;
    let ghost mut acc: Seq<Seq<char>> = seq![];
    proof {
        reveal_strlit("attachments/");
    }
    while from <= tc.len()
        invariant
            tc@ == text@,
            acc == out@.map_values(|s: String| s@),
            refs_from(tc@, from as int, acc) == spec_extract_attachment_refs(text@),
        decreases tc.len() + 1 - from,
    {
        let rest = slice_of(&tc, from, tc.len());
        proof {
            assert(rest@ =~= tc@.skip(from as int));
        }
        let pat = chars_of("attachments/");
        let i = match find_exec(&rest, &pat) {
            Some(i) => i,
            None => {
                return out;
            },
        };
        proof {
            reveal_strlit("attachments/");
            crate::text::lemma_find_props(rest@, pat@);
            assert(i + 12 <= rest@.len());
        }
        let start = from + i;
        let tail = slice_of(&tc, start, tc.len());
        proof {
            assert(tail@ =~= tc@.skip(start as int));
            lemma_stop_index(tail@);
        }
        let end = stop_index_exec(&tail);
        let head = slice_of(&tail, 0, end);
        proof {
            assert(head@ =~= tail@.take(end as int));
            crate::text::lemma_trim_start_edges(head@);
            crate::text::lemma_trim_end_edges(crate::text::trim_start(head@));
        }
        let path = trim_exec(&head);
        let ghost acc_before = acc;
        if path.len() > 0 {
            let mut seen = false;
            let mut k: usize = 0;
            while k < out.len()
                invariant
                    0 <= k <= out.len(),
                    acc == out@.map_values(|s: String| s@),
                    seen <==> exists|j: int| 0 <= j < k && acc[j] == path@,
                decreases out.len() - k,
            {
                proof {
                    assert(acc[k as int] == out@[k as int]@);
                }
                let oc = chars_of(out[k].as_str());
                if crate::text::eq(&oc, &path) {
                    seen = true;
                }
                k += 1;
            }
            proof {
                if seen {
                    let j = choose|j: int| 0 <= j < k && acc[j] == path@;
                    assert(acc.contains(path@));
                } else {
                    assert(!acc.contains(path@));
                }
            }
            if !seen {
                let ps = to_string(&path);
                out.push(ps);
                proof {
                    acc = acc.push(path@);
                    assert(acc =~= out@.map_values(|s: String| s@));
                }
            }
            from = start + path.len();
        } else {
            from = start + 1;
        }
    }
    out
}

/// Does the path end in an image extension (any case)?
pub fn is_image_ref(rel: &str) -> (r: bool)
    ensures
        r == spec_is_image_ref(rel@),
{
    let lower = to_lowercase(rel);
    let lc = chars_of(lower.as_str());
    let exts: [&str; 7] = [".png", ".jpg", ".jpeg", ".gif", ".webp", ".bmp", ".svg"];
    proof {
        reveal_strlit(".png");
        reveal_strlit(".jpg");
        reveal_strlit(".jpeg");
        reveal_strlit(".gif");
        reveal_strlit(".webp");
        reveal_strlit(".bmp");
        reveal_strlit(".svg");
        assert(exts@.map_values(|e: &str| e@) =~= image_exts());
    }
    let mut i: usize = 0;
    while i < 7
        invariant
            0 <= i <= 7,
            lc@ == lowercase(rel@),
            exts@.map_values(|e: &str| e@) == image_exts(),
            forall|k: int| 0 <= k < i ==> !ends_with(lowercase(rel@), #[trigger] image_exts()[k]),
        decreases 7 - i,
    {
        assert(exts@[i as int]@ == image_exts()[i as int]);
        if ends_with_str(&lc, exts[i]) {
            return true;
        }
        i += 1;
    }
    false
}

pub fn after_last_exec(s: &[char], c: char) -> (r: Vec<char>)
    ensures
        r@ == after_last(s@, c),
{
    let mut i: usize = s.len();
    proof {
        assert(s@.take(s.len() as int) =~= s@);
        assert(s@.skip(s.len() as int) =~= Seq::<char>::empty());
        assert(s@ + Seq::<char>::empty() =~= s@);
    }
    while i > 0 && s[i - 1] != c
        invariant
            i <= s.len(),
            after_last(s@, c) == after_last(s@.take(i as int), c) + s@.skip(i as int),
        decreases i,
    {
        proof {
            let t = s@.take(i as int);
            assert(t.drop_last() =~= s@.take(i - 1));
            assert(s@.skip(i - 1) =~= seq![s@[i - 1]] + s@.skip(i as int));
            assert(after_last(t.drop_last(), c).push(t.last()) + s@.skip(i as int) =~= after_last(
                s@.take(i - 1),
                c,
            ) + s@.skip(i - 1));
        }
        i -= 1;
    }
    proof {
        if i > 0 {
            assert(s@.take(i as int).last() == s@[i - 1]);
        }
        assert(after_last(s@.take(i as int), c) =~= Seq::<char>::empty());
    }
    slice_of(s, i, s.len())
}

/// The image MIME type a path's extension stands for (`image/png` when it
/// is none of the others).
pub fn attachment_mime(rel: &str) -> (r: String)
    ensures
        r@ == spec_attachment_mime(rel@),
{
    let rc = chars_of(rel);
    let ext = to_string(&after_last_exec(&rc, '.'));
    let lower = to_lowercase(ext.as_str());
    let lc = chars_of(lower.as_str());
    if crate::text::eq_str(&lc, "jpg") || crate::text::eq_str(&lc, "jpeg") {
        "image/jpeg".to_string()
    } else if crate::text::eq_str(&lc, "gif") {
        "image/gif".to_string()
    } else if crate::text::eq_str(&lc, "webp") {
        "image/webp".to_string()
    } else {
        "image/png".to_string()
    }
}

fn push_ref_markdown(out: &mut Vec<char>, rel: &str)
    ensures
        final(out)@ == old(out)@ + ref_markdown(rel@),
{
    if is_image_ref(rel) {
        push_str(out, "![](");
        push_str(out, rel);
        push_str(out, ")");
    } else {
        let rc = chars_of(rel);
        let label = after_last_exec(&rc, '/');
        push_str(out, "[");
        push_all(out, &label);
        push_str(out, "](");
        push_str(out, rel);
        push_str(out, ")");
    }
}

/// If the model dropped image markdown while rewriting, put the references
/// back: every reference of the original that the body does not mention is
/// appended after a blank line.
pub fn ensure_attachment_markdown(original: &str, body: &str) -> (r: String)
    ensures
        r@ == spec_ensure_attachment_markdown(original@, body@),
{
    let refs = extract_attachment_refs(original);
    let ghost rs = refs@.map_values(|s: String| s@);
    if refs.len() == 0 {
        return body.to_string();
    }
    let bc = chars_of(body);
    let mut out = crate::text::trim_end_exec(&bc);
    let ghost start = out@;
    let mut i: usize = 0;
    while i < refs.len()
        invariant
            0 <= i <= refs.len(),
            rs == refs@.map_values(|s: String| s@),
            out@ == add_refs(start, rs.take(i as int)),
        decreases refs.len() - i,
    {
        proof {
            assert(rs.take(i + 1).drop_last() =~= rs.take(i as int));
        }
        let rc = chars_of(refs[i].as_str());
        if !crate::text::contains_exec(&out, &rc) {
            if out.len() > 0 {
                push_str(&mut out, "\n\n");
            }
            push_ref_markdown(&mut out, refs[i].as_str());
        }
        i += 1;
    }
    proof {
        assert(rs.take(refs.len() as int) =~= rs);
    }
    if out.len() > 0 {
        out.push('\n');
    }
    to_string(&out)
}

/// Calls `STANDARD.encode` of the `base64` crate. Claimed: the text is a
/// function of the bytes alone (named `base64_standard`).
#[verifier::external_body]
fn encode_base64(bytes: &[u8]) -> (r: String)
    requires
        bytes.len() <= usize::MAX / 2,
    ensures
        r@ == base64_standard(bytes@),
{
    base64::Engine::encode(&base64::engine::general_purpose::STANDARD, bytes)
}

/// `data:{mime};base64,{…}` for an attachment's bytes, which the webview
/// shows without an asset protocol.
pub fn attachment_data_url(bytes: &[u8], rel: &str) -> (r: String)
    requires
        bytes.len() <= usize::MAX / 2,
    ensures
        r@ == "data:"@ + spec_attachment_mime(rel@) + ";base64,"@ + base64_standard(bytes@),
{
    let mime = attachment_mime(rel);
    let b64 = encode_base64(bytes);
    let mut out: Vec<char> = Vec::new();
    push_str(&mut out, "data:");
    push_str(&mut out, mime.as_str());
    push_str(&mut out, ";base64,");
    push_str(&mut out, b64.as_str());
    to_string(&out)
}

/// Largest image sent along with a capture: vision APIs bill per pixel, and
/// four megabytes is plenty for a screenshot.
pub const MAX_IMAGE_BYTES: usize = 4194304;

/// An attachment as a model is shown it: its mime type and its bytes in
/// base64; `None` when it is over `MAX_IMAGE_BYTES` and is left out.
pub fn attachment_image(bytes: &[u8], rel: &str) -> (r: Option<(String, String)>)
    ensures
        r is None <==> bytes.len() > MAX_IMAGE_BYTES,
        r matches Some((mime, b64)) ==> mime@ == spec_attachment_mime(rel@) && b64@ == base64_standard(
            bytes@,
        ),
{
    if bytes.len() > MAX_IMAGE_BYTES {
        return None;
    }
    let mime = attachment_mime(rel);
    let b64 = encode_base64(bytes);
    Some((mime, b64))
}

/// A vault-relative path, trimmed and with forward slashes; refused when it
/// holds `..` or starts with `/`, so that joined onto the vault it stays
/// inside it.
pub fn vault_abs(rel: &str) -> (r: Result<String, String>)
    ensures
        match r {
            Ok(p) => spec_vault_rel(rel@) == Ok::<Seq<char>, Seq<char>>(p@),
            Err(e) => spec_vault_rel(rel@) == Err::<Seq<char>, Seq<char>>(e@),
        },
{
    let rc = chars_of(rel);
    let t = trim_exec(&rc);
    let f = forward_slashes_exec(&t);
    if contains_str(&f, "..") || (f.len() > 0 && f[0] == '/') {
        proof {
            reveal_strlit("Invalid path");
        }
        return Err("Invalid path".to_string());
    }
    Ok(to_string(&f))
}

/// A path `vault_abs` accepts stays inside the vault: joined onto the
/// vault's path it starts with that path, and it holds no `..` to climb
/// back out.
pub proof fn law_vault_paths_stay_inside(vault: Seq<char>, rel: Seq<char>)
    ensures
        match spec_vault_rel(rel) {
            Ok(p) => starts_with(spec_join(vault, p), vault) && !contains(p, ".."@),
            Err(_) => true,
        },
{
    if let Ok(p) = spec_vault_rel(rel) {
        let j = spec_join(vault, p);
        assert(j.take(vault.len() as int) =~= vault);
    }
}

/// The path an attachment is read from: it must lie under `attachments/`
/// and may not hold `..`.
pub fn attachment_rel(rel: &str) -> (r: Result<String, String>)
    ensures
        match r {
            Ok(p) => spec_attachment_rel(rel@) == Ok::<Seq<char>, Seq<char>>(p@),
            Err(e) => spec_attachment_rel(rel@) == Err::<Seq<char>, Seq<char>>(e@),
        },
{
    let rc = chars_of(rel);
    let t = trim_exec(&rc);
    let f = forward_slashes_exec(&t);
    if contains_str(&f, "..") || !starts_with_str(&f, "attachments/") {
        let mut e: Vec<char> = Vec::new();
        push_str(&mut e, "Invalid attachment path: ");
        push_all(&mut e, &f);
        return Err(to_string(&e));
    }
    Ok(to_string(&f))
}

/// The extension a pasted image is stored with.
pub fn attachment_ext(ext: &str) -> (r: String)
    ensures
        r@ == spec_attachment_ext(ext@),
{
    let ec = chars_of(ext);
    let mut lo: usize = 0;
    proof {
        assert(ec@.skip(0) =~= ec@);
    }
    while lo < ec.len() && ec[lo] == '.'
        invariant
            0 <= lo <= ec.len(),
            drop_leading_dots(ec@) == drop_leading_dots(ec@.skip(lo as int)),
        decreases ec.len() - lo,
    {
        proof {
            assert(ec@.skip(lo as int).drop_first() =~= ec@.skip(lo + 1));
        }
        lo += 1;
    }
    let d = slice_of(&ec, lo, ec.len());
    proof {
        assert(ec@.skip(lo as int) =~= d@);
        assert(ec@.skip(0) =~= ec@);
    }
    let mut out: Vec<char> = Vec::new();
    let mut i: usize = 0;
    while i < d.len()
        invariant
            0 <= i <= d.len(),
            d@ == drop_leading_dots(ext@),
            out@ == alnum_take(d@.take(i as int), 5),
        decreases d.len() - i,
    {
        proof {
            assert(d@.take(i + 1).drop_last() =~= d@.take(i as int));
        }
        let c = d[i];
        if (('0' <= c && c <= '9') || ('a' <= c && c <= 'z') || ('A' <= c && c <= 'Z')) && out.len()
            < 5 {
            out.push(c);
        }
        i += 1;
    }
    proof {
        assert(d@.take(d.len() as int) =~= d@);
    }
    if out.len() == 0 {
        proof {
            reveal_strlit("png");
        }
        "png".to_string()
    } else {
        to_string(&out)
    }
}


// ------------------------------------------------------------------ laws

proof fn lemma_occurs_contains(s: Seq<char>, p: Seq<char>, i: int)
    requires
        occurs_at(s, p, i),
    ensures
        contains(s, p),
{
    crate::text::lemma_find_props(s, p);
}

proof fn lemma_contains_prefix(s: Seq<char>, t: Seq<char>, p: Seq<char>)
    requires
        contains(s, p),
    ensures
        contains(s + t, p),
{
    crate::text::lemma_find_props(s, p);
    let k = find(s, p)->0;
    assert((s + t).subrange(k, k + p.len()) =~= s.subrange(k, k + p.len()));
    lemma_occurs_contains(s + t, p, k);
}

proof fn lemma_contains_suffix(s: Seq<char>, t: Seq<char>, p: Seq<char>)
    requires
        contains(t, p),
    ensures
        contains(s + t, p),
{
    crate::text::lemma_find_props(t, p);
    let k = find(t, p)->0;
    assert((s + t).subrange(s.len() + k, s.len() + k + p.len()) =~= t.subrange(k, k + p.len()));
    lemma_occurs_contains(s + t, p, s.len() + k);
}

proof fn lemma_ref_markdown_names_it(rel: Seq<char>)
    ensures
        contains(ref_markdown(rel), rel),
{
    reveal_strlit("![](");
    reveal_strlit(")");
    reveal_strlit("[");
    reveal_strlit("](");
    let m = ref_markdown(rel);
    if spec_is_image_ref(rel) {
        assert(m.subrange(4, 4 + rel.len() as int) =~= rel);
        lemma_occurs_contains(m, rel, 4);
    } else {
        let n = after_last(rel, '/');
        let at: int = 3 + n.len() as int;
        assert(m.subrange(at, at + rel.len() as int) =~= rel);
        lemma_occurs_contains(m, rel, at);
    }
}

proof fn lemma_add_refs_names_all(out: Seq<char>, refs: Seq<Seq<char>>, k: int)
    requires
        0 <= k < refs.len(),
    ensures
        contains(add_refs(out, refs), refs[k]),
    decreases refs.len(),
{
    reveal_strlit("\n\n");
    let o = add_refs(out, refs.drop_last());
    let rel = refs.last();
    if k < refs.len() - 1 {
        lemma_add_refs_names_all(out, refs.drop_last(), k);
        assert(refs.drop_last()[k] == refs[k]);
        if !contains(o, rel) {
            if o.len() > 0 {
                lemma_contains_prefix(o, "\n\n"@ + ref_markdown(rel), refs[k]);
                assert(o + "\n\n"@ + ref_markdown(rel) =~= o + ("\n\n"@ + ref_markdown(rel)));
            } else {
                assert(o =~= Seq::<char>::empty());
                crate::text::lemma_find_props(o, refs[k]);
                assert(refs[k].len() == 0);
                lemma_ref_markdown_names_it(rel);
                assert(ref_markdown(rel).subrange(0, 0) =~= refs[k]);
                lemma_occurs_contains(ref_markdown(rel), refs[k], 0);
            }
        }
    } else {
        if !contains(o, rel) {
            lemma_ref_markdown_names_it(rel);
            if o.len() > 0 {
                lemma_contains_suffix(o + "\n\n"@, ref_markdown(rel), rel);
            }
        }
    }
}

/// Filing never loses a capture's attachments: every `attachments/…`
/// reference in the original capture occurs in the text it is filed with,
/// whatever the model's rewrite of it dropped.
pub proof fn law_attachments_survive(original: Seq<char>, body: Seq<char>, k: int)
    requires
        0 <= k < spec_extract_attachment_refs(original).len(),
    ensures
        contains(spec_ensure_attachment_markdown(original, body), spec_extract_attachment_refs(original)[k]),
{
    let refs = spec_extract_attachment_refs(original);
    let o = add_refs(trim_end(body), refs);
    lemma_add_refs_names_all(trim_end(body), refs, k);
    if o.len() > 0 {
        lemma_contains_prefix(o, seq!['\n'], refs[k]);
        assert(o.push('\n') =~= o + seq!['\n']);
    }
}

/// What every collected attachment reference is: it starts with
/// `attachments/`, holds none of the characters that end a reference, and
/// occurs in the text.
pub open spec fn ref_shaped(text: Seq<char>, r: Seq<char>) -> bool {
    &&& starts_with(r, "attachments/"@)
    &&& forall|m: int| 0 <= m < r.len() ==> !is_stop(#[trigger] r[m])
    &&& contains(text, r)
}

pub open spec fn refs_shaped(text: Seq<char>, rs: Seq<Seq<char>>) -> bool {
    &&& forall|k: int| 0 <= k < rs.len() ==> ref_shaped(text, #[trigger] rs[k])
    &&& forall|i: int, j: int| 0 <= i < j < rs.len() ==> rs[i] != rs[j]
}

/// The reference cut out at `start`, where `attachments/` occurs.
proof fn lemma_ref_at(t: Seq<char>, start: int)
    requires
        occurs_at(t, "attachments/"@, start),
    ensures
        ({
            let tail = t.skip(start);
            let path = trim(tail.take(stop_index(tail)));
            &&& path.len() > 0
            &&& start + path.len() <= t.len()
            &&& ref_shaped(t, path)
        }),
{
    reveal_strlit("attachments/");
    let tail = t.skip(start);
    let si = stop_index(tail);
    lemma_stop_index(tail);
    assert(t.subrange(start, start + 12) =~= "attachments/"@);
    assert forall|m: int| 0 <= m < 12 implies tail[m] == "attachments/"@[m] by {
        assert(tail[m] == t.subrange(start, start + 12)[m]);
    }
    assert(si >= 12) by {
        if si < 12 {
            assert(is_stop(tail[si]));
            assert(tail[si] == "attachments/"@[si]);
        }
    }
    let x = tail.take(si);
    assert(x[0] == 'a');
    crate::text::lemma_solid_line(x);
    crate::text::lemma_trim_end_edges(x);
    crate::text::lemma_trim_end_keeps(x, 11);
    let path = trim(x);
    assert(path == x.take(path.len() as int));
    assert(path.take(12) =~= "attachments/"@) by {
        assert forall|m: int| 0 <= m < 12 implies path.take(12)[m] == "attachments/"@[m] by {
            assert(path[m] == x[m]);
            assert(x[m] == tail[m]);
        }
    }
    assert forall|m: int| 0 <= m < path.len() implies !is_stop(#[trigger] path[m]) by {
        assert(path[m] == x[m]);
        assert(x[m] == tail[m]);
    }
    assert(t.subrange(start, start + path.len()) =~= path) by {
        assert forall|m: int| 0 <= m < path.len() implies t.subrange(start, start + path.len())[m] == path[m] by {
            assert(path[m] == x[m]);
            assert(x[m] == tail[m]);
        }
    }
    lemma_occurs_contains(t, path, start);
}

proof fn lemma_refs_from_shaped(t: Seq<char>, from: int, acc: Seq<Seq<char>>)
    requires
        refs_shaped(t, acc),
    ensures
        refs_shaped(t, refs_from(t, from, acc)),
        forall|k: int| 0 <= k < refs_from(t, from, acc).len() ==> (#[trigger] refs_from(t, from, acc)[k]).len() > 0
            || (k < acc.len() && acc[k].len() == 0),
    decreases t.len() + 1 - from,
{
    if from < 0 || from > t.len() {
    } else {
        crate::text::lemma_find_props(t.skip(from), "attachments/"@);
        match find(t.skip(from), "attachments/"@) {
            None => {},
            Some(i) => {
                let start = from + i;
                assert(t.skip(from).subrange(i, i + 12) =~= t.subrange(start, start + 12)) by {
                    reveal_strlit("attachments/");
                }
                assert(occurs_at(t, "attachments/"@, start)) by {
                    reveal_strlit("attachments/");
                }
                lemma_ref_at(t, start);
                let tail = t.skip(start);
                let path = trim(tail.take(stop_index(tail)));
                let acc2 = if path.len() > 0 && !acc.contains(path) {
                    acc.push(path)
                } else {
                    acc
                };
                if path.len() > 0 && !acc.contains(path) {
                    assert forall|k: int| 0 <= k < acc2.len() implies ref_shaped(t, #[trigger] acc2[k]) by {
                        if k < acc.len() {
                            assert(acc2[k] == acc[k]);
                        }
                    }
                    assert forall|a: int, b: int| 0 <= a < b < acc2.len() implies acc2[a] != acc2[b] by {
                        if b == acc.len() {
                            assert(acc2[a] == acc[a]);
                            if acc[a] == path {
                                assert(acc.contains(path));
                            }
                        } else {
                            assert(acc2[a] == acc[a] && acc2[b] == acc[b]);
                        }
                    }
                }
                let next = if path.len() > 0 {
                    start + path.len()
                } else {
                    start + 1
                };
                assert(i >= 0);
                assert(next > from);
                assert(next <= t.len() + 1);
                lemma_refs_from_shaped(t, next, acc2);
                assert forall|k: int| 0 <= k < refs_from(t, from, acc).len() implies (#[trigger] refs_from(t, from, acc)[k]).len() > 0
                    || (k < acc.len() && acc[k].len() == 0) by {
                    if k < acc2.len() && acc2[k].len() == 0 {
                        assert(k < acc.len() && acc2[k] == acc[k]);
                    }
                }
            },
        }
    }
}

/// The attachment references of a text come each once; each starts with
/// `attachments/`, holds none of the characters that end a reference (`)`,
/// `"`, space, line break), is not empty, and occurs in the text.
pub proof fn law_attachment_refs_shape(text: Seq<char>)
    ensures
        refs_shaped(text, spec_extract_attachment_refs(text)),
        forall|k: int|
            0 <= k < spec_extract_attachment_refs(text).len() ==> (
            #[trigger] spec_extract_attachment_refs(text)[k]).len() > 0,
{
    lemma_refs_from_shaped(text, 0, seq![]);
}

proof fn lemma_add_refs_shape(out: Seq<char>, refs: Seq<Seq<char>>)
    requires
        out.len() == 0 || !crate::text::is_ws(out.last()),
        forall|k: int| 0 <= k < refs.len() ==> (#[trigger] refs[k]).len() > 0,
    ensures
        starts_with(add_refs(out, refs), out),
        add_refs(out, refs).len() == 0 || !crate::text::is_ws(add_refs(out, refs).last()),
        refs.len() > 0 ==> add_refs(out, refs).len() > 0,
    decreases refs.len(),
{
    reveal_strlit("\n\n");
    reveal_strlit("![](");
    reveal_strlit(")");
    reveal_strlit("[");
    reveal_strlit("](");
    if refs.len() > 0 {
        assert forall|k: int| 0 <= k < refs.drop_last().len() implies (#[trigger] refs.drop_last()[k]).len() > 0 by {
            assert(refs.drop_last()[k] == refs[k]);
        }
        lemma_add_refs_shape(out, refs.drop_last());
        let o = add_refs(out, refs.drop_last());
        let rel = refs.last();
        assert(rel.len() > 0);
        let md = ref_markdown(rel);
        assert(md.len() > 0 && md.last() == ')');
        if contains(o, rel) {
            crate::text::lemma_find_props(o, rel);
        } else if o.len() > 0 {
            let r = o + "\n\n"@ + md;
            assert(r.take(out.len() as int) =~= o.take(out.len() as int));
        } else {
            assert(out.len() == 0);
            assert(md.take(0) =~= out);
        }
    } else {
        assert(out.take(out.len() as int) =~= out);
    }
}

proof fn lemma_add_refs_contained(o: Seq<char>, refs: Seq<Seq<char>>)
    requires
        forall|k: int| 0 <= k < refs.len() ==> contains(o, #[trigger] refs[k]),
    ensures
        add_refs(o, refs) == o,
    decreases refs.len(),
{
    if refs.len() > 0 {
        assert forall|k: int| 0 <= k < refs.drop_last().len() implies contains(o, #[trigger] refs.drop_last()[k]) by {
            assert(refs.drop_last()[k] == refs[k]);
        }
        lemma_add_refs_contained(o, refs.drop_last());
        assert(contains(o, refs[refs.len() - 1]));
    }
}

/// Putting attachment references back keeps the body in front, changed
/// only by the whitespace at its end, and is done once for all: repairing
/// the repaired body again changes nothing. A text with no references
/// leaves the body as it was.
pub proof fn law_attachment_repair_settles(original: Seq<char>, body: Seq<char>)
    ensures
        spec_extract_attachment_refs(original).len() == 0 ==> spec_ensure_attachment_markdown(original, body)
            == body,
        starts_with(spec_ensure_attachment_markdown(original, body), trim_end(body)),
        spec_ensure_attachment_markdown(original, spec_ensure_attachment_markdown(original, body))
            == spec_ensure_attachment_markdown(original, body),
{
    let refs = spec_extract_attachment_refs(original);
    let te = trim_end(body);
    crate::text::lemma_trim_end_edges(body);
    if refs.len() == 0 {
        assert(body.take(te.len() as int) == te);
    } else {
        law_attachment_refs_shape(original);
        lemma_add_refs_shape(te, refs);
        let o = add_refs(te, refs);
        let r = o.push('\n');
        assert(r.take(te.len() as int) =~= o.take(te.len() as int));
        // the repaired body holds every reference and ends on its last one
        assert forall|k: int| 0 <= k < refs.len() implies contains(o, #[trigger] refs[k]) by {
            lemma_add_refs_names_all(te, refs, k);
        }
        assert(r.drop_last() =~= o);
        assert(crate::text::is_ws('\n'));
        assert(trim_end(r) == trim_end(o));
        assert(trim_end(o) == o);
        lemma_add_refs_contained(o, refs);
    }
}

// ------------------------------------------------------------------ dropped files and pasted images

/// What `base64::engine::general_purpose::STANDARD.decode` gives for the
/// bytes of this text: the decoded bytes, or `None` when it refuses them.
pub uninterp spec fn base64_standard_decoded(text: Seq<char>) -> Option<Seq<u8>>;

/// The error `base64` reports when a text does not decode.
#[verifier::external_type_specification]
#[verifier::external_body]
pub struct ExDecodeError(base64::DecodeError);

/// Calls `STANDARD.decode` of the `base64` crate on the text's bytes.
/// Claimed: whether it decodes, and to what, is a function of the text alone
/// (named `base64_standard_decoded`); the error is handed back as it comes.
#[verifier::external_body]
fn decode_base64(text: &str) -> (r: Result<Vec<u8>, base64::DecodeError>)
    ensures
        r is Ok <==> base64_standard_decoded(text@) is Some,
        r matches Ok(b) ==> base64_standard_decoded(text@) == Some(b@),
{
    base64::Engine::decode(&base64::engine::general_purpose::STANDARD, text.as_bytes())
}

/// Calls `Display` of `base64::DecodeError`: the error's message. Nothing is
/// claimed of the text.
#[verifier::external_body]
fn decode_error_text(e: &base64::DecodeError) -> (r: String) {
    e.to_string()
}

/// Largest file a capture takes a copy of: 64 MiB. Moving more as base64 is
/// no way to move a file; it is linked to instead.
pub const MAX_FILE_BYTES: usize = 67108864;

/// Why a dropped file is refused for its size.
pub open spec fn too_large(filename: Seq<char>, n: nat) -> Seq<char> {
    filename + " is "@ + crate::text::decimal(n / 1048576) + " MB; the limit is 64 MB. Link to it instead."@
}

fn with_decode_error(prefix: &str, e: &base64::DecodeError) -> (r: String)
    ensures
        starts_with(r@, prefix@),
{
    let mut m = chars_of(prefix);
    let t = decode_error_text(e);
    push_str(&mut m, t.as_str());
    proof {
        assert(m@.take(prefix@.len() as int) =~= prefix@);
    }
    to_string(&m)
}

/// The bytes of an image pasted into a capture, which arrive as base64.
pub fn pasted_image_bytes(data_base64: &str) -> (r: Result<Vec<u8>, String>)
    ensures
        r is Ok <==> base64_standard_decoded(data_base64@) is Some,
        r matches Ok(b) ==> base64_standard_decoded(data_base64@) == Some(b@),
        r matches Err(e) ==> starts_with(e@, "Bad image data: "@),
{
    match decode_base64(data_base64) {
        Ok(b) => Ok(b),
        Err(e) => Err(with_decode_error("Bad image data: ", &e)),
    }
}

/// The bytes of a file dropped into a capture, which arrive as base64;
/// refused when over `MAX_FILE_BYTES`.
pub fn dropped_file_bytes(data_base64: &str, filename: &str) -> (r: Result<Vec<u8>, String>)
    ensures
        match base64_standard_decoded(data_base64@) {
            None => r matches Err(e) && starts_with(e@, "Bad file data: "@),
            Some(b) => if b.len() > MAX_FILE_BYTES {
                r matches Err(e) && e@ == too_large(filename@, b.len())
            } else {
                r matches Ok(x) && x@ == b
            },
        },
{
    match decode_base64(data_base64) {
        Ok(b) => {
            if b.len() > MAX_FILE_BYTES {
                let mut m = chars_of(filename);
                push_str(&mut m, " is ");
                let mb = crate::text::decimal_exec(b.len() / 1048576);
                push_all(&mut m, &mb);
                push_str(&mut m, " MB; the limit is 64 MB. Link to it instead.");
                Err(to_string(&m))
            } else {
                Ok(b)
            }
        },
        Err(e) => Err(with_decode_error("Bad file data: ", &e)),
    }
}

/// `rsplit(['/', '\\']).next()`: the part after the last `/` or `\`.
pub open spec fn base_name(s: Seq<char>) -> Seq<char>
    decreases s.len(),
{
    if s.len() == 0 {
        s
    } else if s.last() == '/' || s.last() == '\\' {
        seq![]
    } else {
        base_name(s.drop_last()).push(s.last())
    }
}

/// Index of the last `.`.
pub open spec fn last_dot(s: Seq<char>) -> Option<int>
    decreases s.len(),
{
    if s.len() == 0 {
        None
    } else if s.last() == '.' {
        Some(s.len() - 1)
    } else {
        last_dot(s.drop_last())
    }
}

/// A file name split at its last dot; a name with no dot, or only a leading
/// one, is all stem.
pub open spec fn stem_and_ext(raw: Seq<char>) -> (Seq<char>, Seq<char>) {
    match last_dot(raw) {
        Some(i) => if i > 0 {
            (raw.take(i), raw.skip(i + 1))
        } else {
            (raw, seq![])
        },
        None => (raw, seq![]),
    }
}

/// A character a stored name keeps; anything else becomes `-`.
pub open spec fn name_char(c: char) -> char {
    if crate::names::ascii_alnum(c) || c == '-' || c == '_' || c == ' ' {
        c
    } else {
        '-'
    }
}

/// `str::replace("  ", " ")`: each pair of spaces, left to right, made one.
pub open spec fn squeeze_spaces(s: Seq<char>) -> Seq<char>
    decreases s.len(),
{
    if s.len() < 2 {
        s
    } else if s[0] == ' ' && s[1] == ' ' {
        seq![' '] + squeeze_spaces(s.skip(2))
    } else {
        seq![s[0]] + squeeze_spaces(s.drop_first())
    }
}

/// The stem a dropped file is stored under: its own, made safe, at most 60
/// characters; `file` when nothing is left.
pub open spec fn named_stem(filename: Seq<char>) -> Seq<char> {
    let raw = stem_and_ext(base_name(filename)).0;
    let st = take_chars(squeeze_spaces(trim(raw.map_values(|c: char| name_char(c)))), 60);
    if crate::text::is_blank(st) {
        "file"@
    } else {
        st
    }
}

/// The extension a dropped file is stored with: up to eight ASCII letters or
/// digits of its own, lowercased.
pub open spec fn named_ext(filename: Seq<char>) -> Seq<char> {
    ascii_lower(alnum_take(stem_and_ext(base_name(filename)).1, 8))
}

/// `{stem}{suffix}.{ext}`, or `{stem}{suffix}` without an extension.
pub open spec fn spec_named_attachment_file(filename: Seq<char>, suffix: Seq<char>) -> Seq<char> {
    let e = named_ext(filename);
    if e.len() == 0 {
        named_stem(filename) + suffix
    } else {
        named_stem(filename) + suffix + "."@ + e
    }
}

fn base_name_exec(s: &[char]) -> (r: Vec<char>)
    ensures
        r@ == base_name(s@),
{
    let mut cur: Vec<char> = Vec::new();
    let mut i: usize = 0;
    proof {
        assert(s@.take(0) =~= Seq::<char>::empty());
    }
    while i < s.len()
        invariant
            0 <= i <= s.len(),
            cur@ == base_name(s@.take(i as int)),
        decreases s.len() - i,
    {
        proof {
            assert(s@.take(i + 1).drop_last() =~= s@.take(i as int));
            assert(s@.take(i + 1).last() == s@[i as int]);
        }
        if s[i] == '/' || s[i] == '\\' {
            cur = Vec::new();
            proof {
                assert(cur@ =~= Seq::<char>::empty());
            }
        } else {
            cur.push(s[i]);
        }
        i += 1;
    }
    proof {
        assert(s@.take(s.len() as int) =~= s@);
    }
    cur
}

fn last_dot_exec(s: &[char]) -> (r: Option<usize>)
    ensures
        r matches Some(k) ==> last_dot(s@) == Some(k as int) && k < s.len(),
        r is None ==> last_dot(s@) is None,
{
    let mut ld: Option<usize> = None;
    let mut i: usize = 0;
    while i < s.len()
        invariant
            0 <= i <= s.len(),
            ld matches Some(k) ==> last_dot(s@.take(i as int)) == Some(k as int) && k < i,
            ld is None ==> last_dot(s@.take(i as int)) is None,
        decreases s.len() - i,
    {
        proof {
            assert(s@.take(i + 1).drop_last() =~= s@.take(i as int));
            assert(s@.take(i + 1).last() == s@[i as int]);
        }
        if s[i] == '.' {
            ld = Some(i);
        }
        i += 1;
    }
    proof {
        assert(s@.take(s.len() as int) =~= s@);
    }
    ld
}

fn squeeze_spaces_exec(s: &[char]) -> (r: Vec<char>)
    ensures
        r@ == squeeze_spaces(s@),
{
    let mut out: Vec<char> = Vec::new();
    let mut i: usize = 0;
    proof {
        assert(s@.skip(0) =~= s@);
    }
    while i < s.len()
        invariant
            0 <= i <= s.len(),
            out@ + squeeze_spaces(s@.skip(i as int)) == squeeze_spaces(s@),
        decreases s.len() - i,
    {
        let ghost t = s@.skip(i as int);
        if i + 1 < s.len() && s[i] == ' ' && s[i + 1] == ' ' {
            proof {
                assert(t[0] == s@[i as int] && t[1] == s@[i + 1]);
                assert(t.skip(2) =~= s@.skip(i + 2));
                assert(out@.push(' ') + squeeze_spaces(s@.skip(i + 2)) =~= out@ + squeeze_spaces(t));
            }
            out.push(' ');
            i += 2;
        } else {
            proof {
                assert(t[0] == s@[i as int]);
                assert(t.drop_first() =~= s@.skip(i + 1));
                if t.len() < 2 {
                    assert(s@.skip(i + 1) =~= Seq::<char>::empty());
                    assert(squeeze_spaces(t) == t);
                    assert(t =~= seq![s@[i as int]]);
                }
                assert(out@.push(s@[i as int]) + squeeze_spaces(s@.skip(i + 1)) =~= out@ + squeeze_spaces(t));
            }
            out.push(s[i]);
            i += 1;
        }
    }
    proof {
        assert(s@.skip(i as int) =~= Seq::<char>::empty());
        assert(out@ + Seq::<char>::empty() =~= out@);
    }
    out
}

/// The name a dropped file is stored under in `attachments/`: its own name
/// made safe (see `named_stem`, `named_ext`), with `suffix` after the stem.
/// A copy is first tried with no suffix; when that name is taken, the
/// caller tries again with `-{YYYYmmdd-HHMMSS}`.
pub fn named_attachment_file(filename: &str, suffix: &str) -> (r: String)
    ensures
        r@ == spec_named_attachment_file(filename@, suffix@),
{
    let fc = chars_of(filename);
    let raw = base_name_exec(&fc);
    let (stem, ext): (Vec<char>, Vec<char>) = match last_dot_exec(&raw) {
        Some(i) => if i > 0 {
            (slice_of(&raw, 0, i), slice_of(&raw, i + 1, raw.len()))
        } else {
            (crate::text::copy(&raw), Vec::new())
        },
        None => (crate::text::copy(&raw), Vec::new()),
    };
    proof {
        let se = stem_and_ext(raw@);
        match last_dot(raw@) {
            Some(i) => if i > 0 {
                assert(stem@ =~= se.0);
                assert(ext@ =~= se.1);
            } else {
                assert(ext@ =~= se.1);
            },
            None => {
                assert(ext@ =~= se.1);
            },
        }
    }
    let mut mapped: Vec<char> = Vec::new();
    let mut i: usize = 0;
    while i < stem.len()
        invariant
            0 <= i <= stem.len(),
            mapped@ == stem@.take(i as int).map_values(|c: char| name_char(c)),
        decreases stem.len() - i,
    {
        let c = stem[i];
        let keep = ('0' <= c && c <= '9') || ('a' <= c && c <= 'z') || ('A' <= c && c <= 'Z') || c == '-' || c
            == '_' || c == ' ';
        if keep {
            mapped.push(c);
        } else {
            mapped.push('-');
        }
        proof {
            assert(stem@.take(i + 1).map_values(|c: char| name_char(c)) =~= stem@.take(i as int).map_values(
                |c: char| name_char(c),
            ).push(name_char(c)));
        }
        i += 1;
    }
    proof {
        assert(stem@.take(stem.len() as int) =~= stem@);
    }
    let t = trim_exec(&mapped);
    let sq = squeeze_spaces_exec(&t);
    let st0 = take_chars_exec(&sq, 60);
    let st = if crate::text::is_blank_exec(&st0) {
        chars_of("file")
    } else {
        st0
    };
    let mut e: Vec<char> = Vec::new();
    let mut j: usize = 0;
    proof {
        assert(ext@.take(0) =~= Seq::<char>::empty());
    }
    while j < ext.len()
        invariant
            0 <= j <= ext.len(),
            e@ == alnum_take(ext@.take(j as int), 8),
            all_ascii(e@),
        decreases ext.len() - j,
    {
        proof {
            assert(ext@.take(j + 1).drop_last() =~= ext@.take(j as int));
        }
        let c = ext[j];
        if (('0' <= c && c <= '9') || ('a' <= c && c <= 'z') || ('A' <= c && c <= 'Z')) && e.len() < 8 {
            e.push(c);
        }
        j += 1;
    }
    proof {
        assert(ext@.take(ext.len() as int) =~= ext@);
    }
    let el = to_lowercase(to_string(&e).as_str());
    let mut out = st;
    push_str(&mut out, suffix);
    let elc = chars_of(el.as_str());
    if elc.len() > 0 {
        out.push('.');
        push_all(&mut out, &elc);
    }
    proof {
        reveal_strlit("file");
        reveal_strlit(".");
        if elc@.len() == 0 {
            assert(out@ =~= spec_named_attachment_file(filename@, suffix@));
        } else {
            assert(out@ =~= spec_named_attachment_file(filename@, suffix@));
        }
    }
    to_string(&out)
}

} // verus!
