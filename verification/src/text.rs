//! Character-level text primitives shared by every markdown transformation:
//! whitespace trimming, prefix tests, substring search and line splitting,
//! each stated over `Seq<char>` and implemented over `&[char]`.
use vstd::prelude::*;
use vstd::slice::slice_to_vec;

verus! {

// ------------------------------------------------------------------ specs

/// The Unicode `White_Space` property, which `char::is_whitespace` and
/// `str::trim` go by.
pub open spec fn is_ws(c: char) -> bool {
    let n = c as u32;
    ||| (0x9 <= n && n <= 0xD)
    ||| n == 0x20
    ||| n == 0x85
    ||| n == 0xA0
    ||| n == 0x1680
    ||| (0x2000 <= n && n <= 0x200A)
    ||| n == 0x2028
    ||| n == 0x2029
    ||| n == 0x202F
    ||| n == 0x205F
    ||| n == 0x3000
}

pub open spec fn trim_start(s: Seq<char>) -> Seq<char>
    decreases s.len(),
{
    if s.len() > 0 && is_ws(s[0]) {
        trim_start(s.drop_first())
    } else {
        s
    }
}

pub open spec fn trim_end(s: Seq<char>) -> Seq<char>
    decreases s.len(),
{
    if s.len() > 0 && is_ws(s.last()) {
        trim_end(s.drop_last())
    } else {
        s
    }
}

/// `str::trim`: whitespace removed from both ends.
pub open spec fn trim(s: Seq<char>) -> Seq<char> {
    trim_end(trim_start(s))
}

pub open spec fn starts_with(s: Seq<char>, p: Seq<char>) -> bool {
    p.len() <= s.len() && s.take(p.len() as int) == p
}

pub open spec fn ends_with(s: Seq<char>, p: Seq<char>) -> bool {
    p.len() <= s.len() && s.skip(s.len() - p.len()) == p
}

/// `p` occurs in `s` starting at index `i`.
pub open spec fn occurs_at(s: Seq<char>, p: Seq<char>, i: int) -> bool {
    0 <= i && i + p.len() <= s.len() && s.subrange(i, i + p.len()) == p
}

/// Index of the first occurrence of `p` in `s` at or after `i`.
pub open spec fn find_from(s: Seq<char>, p: Seq<char>, i: int) -> Option<int>
    decreases s.len() + 1 - i,
{
    if i < 0 || i + p.len() > s.len() {
        None
    } else if occurs_at(s, p, i) {
        Some(i)
    } else {
        find_from(s, p, i + 1)
    }
}

/// `str::find`, counted in characters.
pub open spec fn find(s: Seq<char>, p: Seq<char>) -> Option<int> {
    find_from(s, p, 0)
}

pub open spec fn contains(s: Seq<char>, p: Seq<char>) -> bool {
    find(s, p) is Some
}

/// A line holds nothing but whitespace.
pub open spec fn is_blank(s: Seq<char>) -> bool {
    trim(s).len() == 0
}

/// Length of the run before the first `'\n'`.
pub open spec fn first_nl(s: Seq<char>) -> nat
    decreases s.len(),
{
    if s.len() == 0 || s[0] == '\n' {
        0
    } else {
        1 + first_nl(s.drop_first())
    }
}

pub open spec fn strip_cr(l: Seq<char>) -> Seq<char> {
    if l.len() > 0 && l.last() == '\r' {
        l.drop_last()
    } else {
        l
    }
}

/// `str::lines`: split at `\n` (dropping a `\r` right before it); a final
/// line ending adds no empty line.
pub open spec fn lines(s: Seq<char>) -> Seq<Seq<char>>
    decreases s.len(),
{
    if s.len() == 0 {
        seq![]
    } else {
        let i = first_nl(s);
        if i < s.len() {
            seq![strip_cr(s.take(i as int))] + lines(s.skip(i + 1 as int))
        } else {
            seq![s]
        }
    }
}

/// `[T]::join(sep)` over lines.
pub open spec fn join(ls: Seq<Seq<char>>, sep: Seq<char>) -> Seq<char>
    decreases ls.len(),
{
    if ls.len() == 0 {
        seq![]
    } else if ls.len() == 1 {
        ls[0]
    } else {
        join(ls.drop_last(), sep) + sep + ls.last()
    }
}

pub open spec fn digit_char(n: int) -> char {
    (n + 48) as char
}

/// Decimal digits of `n`, most significant first.
pub open spec fn decimal(n: nat) -> Seq<char>
    decreases n,
{
    if n < 10 {
        seq![digit_char(n as int)]
    } else {
        decimal(n / 10).push(digit_char((n % 10) as int))
    }
}

/// `s.chars().take(n)`.
pub open spec fn take_chars(s: Seq<char>, n: int) -> Seq<char> {
    if s.len() <= n {
        s
    } else {
        s.take(n)
    }
}

/// Every line followed by `\n`.
pub open spec fn lines_nl(ls: Seq<Seq<char>>) -> Seq<char>
    decreases ls.len(),
{
    if ls.len() == 0 {
        seq![]
    } else {
        lines_nl(ls.drop_last()) + ls.last() + seq!['\n']
    }
}

/// Does a line pass test `kind` against `p`: 0 starts with `p`, 1 trims to
/// `p`, 2 trims to something starting with `p`.
pub open spec fn line_test(l: Seq<char>, kind: int, p: Seq<char>) -> bool {
    if kind == 0 {
        starts_with(l, p)
    } else if kind == 1 {
        trim(l) == p
    } else {
        starts_with(trim(l), p)
    }
}

/// Index of the first line at or after `i` that passes the test.
pub open spec fn first_line(ls: Seq<Seq<char>>, i: int, kind: int, p: Seq<char>) -> Option<int>
    decreases ls.len() - i,
{
    if i < 0 || i >= ls.len() {
        None
    } else if line_test(ls[i], kind, p) {
        Some(i)
    } else {
        first_line(ls, i + 1, kind, p)
    }
}

/// The first non-blank line at or after `j`.
pub open spec fn skip_blank(ls: Seq<Seq<char>>, j: int) -> int
    decreases ls.len() - j,
{
    if j < 0 || j >= ls.len() {
        ls.len() as int
    } else if is_blank(ls[j]) {
        skip_blank(ls, j + 1)
    } else {
        j
    }
}

/// The views of a vector of character vectors.
pub open spec fn vv(v: Seq<Vec<char>>) -> Seq<Seq<char>> {
    v.map_values(|x: Vec<char>| x@)
}

/// The views of a sequence of strings.
pub open spec fn sv(v: Seq<String>) -> Seq<Seq<char>> {
    v.map_values(|x: String| x@)
}

/// `str::split_once(p)`.
pub open spec fn split_once(s: Seq<char>, p: Seq<char>) -> Option<(Seq<char>, Seq<char>)> {
    match find(s, p) {
        Some(i) => Some((s.take(i), s.skip(i + p.len()))),
        None => None,
    }
}

/// Every character is ASCII.
pub open spec fn all_ascii(s: Seq<char>) -> bool {
    forall|i: int| 0 <= i < s.len() ==> (s[i] as u32) < 128
}

pub open spec fn ascii_lower_char(c: char) -> char {
    if 65 <= (c as u32) <= 90 {
        ((c as u32) + 32) as char
    } else {
        c
    }
}

pub open spec fn ascii_lower(s: Seq<char>) -> Seq<char> {
    s.map_values(|c: char| ascii_lower_char(c))
}

/// What `str::to_lowercase` gives (Unicode lowercase mapping).
pub uninterp spec fn lowercase(s: Seq<char>) -> Seq<char>;

/// What `char::is_alphanumeric` answers (Unicode `Alphabetic` or `Numeric`).
pub uninterp spec fn alphanumeric(c: char) -> bool;

// ---------------------------------------------------------------- lemmas

pub proof fn lemma_first_nl(s: Seq<char>)
    ensures
        first_nl(s) <= s.len(),
        forall|j: int| 0 <= j < first_nl(s) ==> s[j] != '\n',
        first_nl(s) < s.len() ==> s[first_nl(s) as int] == '\n',
    decreases s.len(),
{
    if s.len() > 0 && s[0] != '\n' {
        lemma_first_nl(s.drop_first());
        assert forall|j: int| 0 <= j < first_nl(s) implies s[j] != '\n' by {
            if j > 0 {
                assert(s[j] == s.drop_first()[j - 1]);
            }
        }
    }
}

pub proof fn lemma_first_nl_at(s: Seq<char>, k: int)
    requires
        0 <= k <= s.len(),
        k < s.len() ==> s[k] == '\n',
        forall|j: int| 0 <= j < k ==> s[j] != '\n',
    ensures
        first_nl(s) == k,
{
    lemma_first_nl(s);
    if first_nl(s) < k {
        assert(s[first_nl(s) as int] == '\n');
    }
}

pub proof fn lemma_trim_start_step(s: Seq<char>, i: int)
    requires
        0 <= i < s.len(),
        is_ws(s[i]),
    ensures
        trim_start(s.skip(i)) == trim_start(s.skip(i + 1)),
{
    assert(s.skip(i).drop_first() =~= s.skip(i + 1));
}

pub proof fn lemma_trim_end_step(s: Seq<char>, lo: int, hi: int)
    requires
        0 <= lo < hi <= s.len(),
        is_ws(s[hi - 1]),
    ensures
        trim_end(s.subrange(lo, hi)) == trim_end(s.subrange(lo, hi - 1)),
{
    assert(s.subrange(lo, hi).drop_last() =~= s.subrange(lo, hi - 1));
}

/// A trimmed sequence is a contiguous piece of the original.
pub proof fn lemma_trim_start_is_skip(s: Seq<char>)
    ensures
        exists|k: int| 0 <= k <= s.len() && trim_start(s) == s.skip(k),
    decreases s.len(),
{
    if s.len() > 0 && is_ws(s[0]) {
        lemma_trim_start_is_skip(s.drop_first());
        let k = choose|k: int| 0 <= k <= s.drop_first().len() && trim_start(s.drop_first()) == s.drop_first().skip(k);
        assert(s.drop_first().skip(k) =~= s.skip(k + 1));
    } else {
        assert(s.skip(0) =~= s);
    }
}

pub proof fn lemma_trim_start_edges(s: Seq<char>)
    ensures
        trim_start(s).len() > 0 ==> !is_ws(trim_start(s)[0]),
        trim_start(s).len() <= s.len(),
    decreases s.len(),
{
    if s.len() > 0 && is_ws(s[0]) {
        lemma_trim_start_edges(s.drop_first());
    }
}

pub proof fn lemma_trim_end_edges(s: Seq<char>)
    ensures
        trim_end(s).len() > 0 ==> !is_ws(trim_end(s).last()),
        trim_end(s).len() <= s.len(),
        trim_end(s) == s.take(trim_end(s).len() as int),
    decreases s.len(),
{
    if s.len() > 0 && is_ws(s.last()) {
        lemma_trim_end_edges(s.drop_last());
        assert(s.drop_last().take(trim_end(s).len() as int) =~= s.take(trim_end(s).len() as int));
    } else {
        assert(s.take(s.len() as int) =~= s);
    }
}

/// Trimming twice changes nothing.
pub proof fn lemma_trim_idempotent(s: Seq<char>)
    ensures
        trim(trim(s)) == trim(s),
        trim_start(trim(s)) == trim(s),
        trim_end(trim(s)) == trim(s),
{
    let a = trim_start(s);
    let b = trim_end(a);
    lemma_trim_start_edges(s);
    lemma_trim_end_edges(a);
    // b starts where a starts, so it does not start with whitespace.
    if b.len() > 0 {
        assert(b[0] == a[0]);
    }
    assert(trim_start(b) == b);
    assert(trim_end(b) == b);
}

/// Text that neither starts nor ends with whitespace trims to itself.
pub proof fn lemma_trim_noop(s: Seq<char>)
    requires
        s.len() > 0,
        !is_ws(s[0]),
        !is_ws(s.last()),
    ensures
        trim(s) == s,
        trim_start(s) == s,
{
}

proof fn lemma_trim_start_push(s: Seq<char>, c: char)
    ensures
        trim_start(s.push(c)) == if trim_start(s).len() == 0 {
            trim_start(seq![c])
        } else {
            trim_start(s).push(c)
        },
    decreases s.len(),
{
    if s.len() == 0 {
        assert(s.push(c) =~= seq![c]);
    } else if is_ws(s[0]) {
        assert(s.push(c).drop_first() =~= s.drop_first().push(c));
        lemma_trim_start_push(s.drop_first(), c);
    } else {
        assert(s.push(c)[0] == s[0]);
    }
}

/// Whitespace added at the end is trimmed away again.
pub proof fn lemma_trim_push_ws(s: Seq<char>, c: char)
    requires
        is_ws(c),
    ensures
        trim(s.push(c)) == trim(s),
{
    lemma_trim_start_push(s, c);
    if trim_start(s).len() == 0 {
        assert(seq![c].drop_first() =~= Seq::<char>::empty());
        assert(seq![c][0] == c);
        assert(trim_start(Seq::<char>::empty()) == Seq::<char>::empty());
        assert(trim_start(seq![c]) =~= Seq::<char>::empty());
    } else {
        assert(trim_start(s).push(c).drop_last() =~= trim_start(s));
    }
}

pub proof fn lemma_find_from_props(s: Seq<char>, p: Seq<char>, i: int)
    requires
        0 <= i,
    ensures
        find_from(s, p, i) matches Some(k) ==> i <= k && occurs_at(s, p, k)
            && forall|j: int| i <= j < k ==> !occurs_at(s, p, j),
        find_from(s, p, i) is None ==> forall|j: int| i <= j ==> !occurs_at(s, p, j),
    decreases s.len() + 1 - i,
{
    if i + p.len() > s.len() {
    } else if occurs_at(s, p, i) {
    } else {
        lemma_find_from_props(s, p, i + 1);
    }
}

pub proof fn lemma_find_props(s: Seq<char>, p: Seq<char>)
    ensures
        find(s, p) matches Some(k) ==> 0 <= k && occurs_at(s, p, k)
            && forall|j: int| 0 <= j < k ==> !occurs_at(s, p, j),
        find(s, p) is None ==> forall|j: int| 0 <= j ==> !occurs_at(s, p, j),
{
    lemma_find_from_props(s, p, 0);
}

/// Trimming text without carriage returns leaves none, and ends the text,
/// when anything is left, on a character that is no whitespace.
pub proof fn lemma_trim_edges_clean(s: Seq<char>)
    requires
        no_cr(s),
    ensures
        no_cr(trim(s)),
        trim(s).len() > 0 ==> !is_ws(trim(s).last()) && trim(s).last() != '\n',
{
    lemma_trim_start_is_skip(s);
    let k = choose|k: int| 0 <= k <= s.len() && trim_start(s) == s.skip(k);
    let a = trim_start(s);
    lemma_trim_end_edges(a);
    let t = trim(s);
    assert forall|j: int| 0 <= j < t.len() implies t[j] != '\r' by {
        assert(t[j] == a[j]);
        assert(a[j] == s[k + j]);
    }
    if t.len() > 0 {
        assert(is_ws('\n')) by {
            assert(('\n' as u32) == 10);
        }
    }
}

/// An occurrence anywhere means `contains`.
pub proof fn lemma_contains_at(s: Seq<char>, p: Seq<char>, i: int)
    requires
        occurs_at(s, p, i),
    ensures
        contains(s, p),
{
    lemma_find_props(s, p);
}

/// `find` is determined by where the first occurrence is.
pub proof fn lemma_find_unique(s: Seq<char>, p: Seq<char>, k: int)
    requires
        occurs_at(s, p, k),
        forall|j: int| 0 <= j < k ==> !occurs_at(s, p, j),
    ensures
        find(s, p) == Some(k),
{
    lemma_find_props(s, p);
    match find(s, p) {
        Some(m) => {
            if m < k {
            } else if m > k {
            }
        },
        None => {
            assert(!occurs_at(s, p, k));
        },
    }
}

pub proof fn lemma_lines_step(s: Seq<char>, st: int, i: int)
    requires
        0 <= st <= i < s.len(),
        s[i] == '\n',
        forall|j: int| st <= j < i ==> s[j] != '\n',
    ensures
        lines(s.skip(st)) == seq![strip_cr(s.subrange(st, i))] + lines(s.skip(i + 1)),
{
    let t = s.skip(st);
    assert forall|j: int| 0 <= j < i - st implies t[j] != '\n' by {
        assert(t[j] == s[st + j]);
    }
    lemma_first_nl_at(t, i - st);
    assert(t.take(i - st) =~= s.subrange(st, i));
    assert(t.skip(i - st + 1) =~= s.skip(i + 1));
}

pub proof fn lemma_lines_last(s: Seq<char>, st: int)
    requires
        0 <= st <= s.len(),
        forall|j: int| st <= j < s.len() ==> s[j] != '\n',
    ensures
        st < s.len() ==> lines(s.skip(st)) == seq![s.skip(st)],
        st == s.len() ==> lines(s.skip(st)) == Seq::<Seq<char>>::empty(),
{
    let t = s.skip(st);
    if st < s.len() {
        assert forall|j: int| 0 <= j < t.len() implies t[j] != '\n' by {
            assert(t[j] == s[st + j]);
        }
        lemma_first_nl_at(t, t.len() as int);
    } else {
        assert(t.len() == 0);
    }
}

pub proof fn lemma_vv_push(v: Seq<Vec<char>>, x: Vec<char>)
    ensures
        vv(v.push(x)) == vv(v).push(x@),
{
    assert(vv(v.push(x)) =~= vv(v).push(x@));
}

// ------------------------------------------------------------------ exec

/// `char::is_whitespace`.
pub fn is_ws_char(c: char) -> (r: bool)
    ensures
        r == is_ws(c),
{
    let n = c as u32;
    (0x9 <= n && n <= 0xD) || n == 0x20 || n == 0x85 || n == 0xA0 || n == 0x1680 || (0x2000
        <= n && n <= 0x200A) || n == 0x2028 || n == 0x2029 || n == 0x202F || n == 0x205F || n
        == 0x3000
}

/// `String::push`: appends one character.
#[verifier::external_body]
pub(crate) fn push_char(s: &mut String, c: char)
    ensures
        final(s)@ == old(s)@.push(c),
{
    s.push(c);
}

/// Calls `str::to_lowercase`. Claimed: the result is determined by the text,
/// and ASCII text is lowercased letter by letter (`A`-`Z` to `a`-`z`, the rest
/// unchanged). How other characters map is left to the name.
#[verifier::external_body]
pub(crate) fn to_lowercase(s: &str) -> (r: String)
    ensures
        r@ == lowercase(s@),
        all_ascii(s@) ==> r@ == ascii_lower(s@),
{
    s.to_lowercase()
}

/// Calls `char::is_alphanumeric`. Claimed: the answer is determined by the
/// character, and for ASCII it is true exactly for letters and digits. Which
/// other characters count is left to the name.
#[verifier::external_body]
pub(crate) fn is_alphanumeric(c: char) -> (r: bool)
    ensures
        r == alphanumeric(c),
        (c as u32) < 128 ==> (r <==> (('0' <= c && c <= '9') || ('a' <= c && c <= 'z') || ('A' <= c
            && c <= 'Z'))),
{
    c.is_alphanumeric()
}

/// The characters of a string slice, in order.
pub fn chars_of(s: &str) -> (r: Vec<char>)
    ensures
        r@ == s@,
{
    let mut out: Vec<char> = Vec::new();
    for c in it: s.chars()
        invariant
            out@ == it.seq().take(it.index() as int),
            it.seq() == s@,
    {
        out.push(c);
    }
    out
}

/// A `String` holding exactly these characters.
pub fn to_string(s: &[char]) -> (r: String)
    ensures
        r@ == s@,
{
    let mut out = String::new();
    let mut i: usize = 0;
    while i < s.len()
        invariant
            0 <= i <= s.len(),
            out@ == s@.take(i as int),
        decreases s.len() - i,
    {
        push_char(&mut out, s[i]);
        assert(s@.take(i as int).push(s@[i as int]) =~= s@.take(i + 1));
        i += 1;
    }
    assert(s@.take(s.len() as int) =~= s@);
    out
}

/// Owned copy of a slice.
pub fn copy(s: &[char]) -> (r: Vec<char>)
    ensures
        r@ == s@,
{
    slice_to_vec(s)
}

/// Owned copy of `s[lo..hi]`.
pub fn slice_of(s: &[char], lo: usize, hi: usize) -> (r: Vec<char>)
    requires
        lo <= hi <= s.len(),
    ensures
        r@ == s@.subrange(lo as int, hi as int),
{
    slice_to_vec(&s[lo..hi])
}

/// Appends every character of `s` to `out`.
pub fn push_all(out: &mut Vec<char>, s: &[char])
    ensures
        final(out)@ == old(out)@ + s@,
{
    let ghost start = out@;
    let mut i: usize = 0;
    while i < s.len()
        invariant
            0 <= i <= s.len(),
            out@ == start + s@.take(i as int),
        decreases s.len() - i,
    {
        out.push(s[i]);
        assert(start + s@.take(i as int) + seq![s@[i as int]] =~= start + s@.take(i + 1));
        i += 1;
    }
    assert(s@.take(s.len() as int) =~= s@);
}

/// Appends a string literal or slice to `out`.
pub fn push_str(out: &mut Vec<char>, s: &str)
    ensures
        final(out)@ == old(out)@ + s@,
{
    let cs = chars_of(s);
    push_all(out, &cs);
}

/// Character-wise equality.
pub fn eq(a: &[char], b: &[char]) -> (r: bool)
    ensures
        r == (a@ == b@),
{
    if a.len() != b.len() {
        return false;
    }
    let mut i: usize = 0;
    while i < a.len()
        invariant
            a.len() == b.len(),
            0 <= i <= a.len(),
            forall|j: int| 0 <= j < i ==> a@[j] == b@[j],
        decreases a.len() - i,
    {
        if a[i] != b[i] {
            return false;
        }
        i += 1;
    }
    assert(a@ =~= b@);
    true
}

/// Equality with a string literal.
pub fn eq_str(a: &[char], b: &str) -> (r: bool)
    ensures
        r == (a@ == b@),
{
    let bs = chars_of(b);
    eq(a, &bs)
}

/// Does `p` occur in `s` at index `i`?
pub fn occurs_at_exec(s: &[char], p: &[char], i: usize) -> (r: bool)
    ensures
        r == occurs_at(s@, p@, i as int),
{
    if i > s.len() || p.len() > s.len() - i {
        return false;
    }
    let mut j: usize = 0;
    while j < p.len()
        invariant
            i + p.len() <= s.len(),
            0 <= j <= p.len(),
            forall|k: int| 0 <= k < j ==> s@[i + k] == p@[k],
        decreases p.len() - j,
    {
        if s[i + j] != p[j] {
            assert(s@.subrange(i as int, i + p.len())[j as int] != p@[j as int]);
            return false;
        }
        j += 1;
    }
    assert(s@.subrange(i as int, i + p.len()) =~= p@);
    true
}

pub fn starts_with_exec(s: &[char], p: &[char]) -> (r: bool)
    ensures
        r == starts_with(s@, p@),
{
    let r = occurs_at_exec(s, p, 0);
    proof {
        if p.len() <= s.len() {
            assert(s@.subrange(0, p.len() as int) =~= s@.take(p.len() as int));
        }
    }
    r
}

pub fn starts_with_str(s: &[char], p: &str) -> (r: bool)
    ensures
        r == starts_with(s@, p@),
{
    let ps = chars_of(p);
    starts_with_exec(s, &ps)
}

pub fn ends_with_exec(s: &[char], p: &[char]) -> (r: bool)
    ensures
        r == ends_with(s@, p@),
{
    if p.len() > s.len() {
        return false;
    }
    let r = occurs_at_exec(s, p, s.len() - p.len());
    proof {
        assert(s@.subrange(s.len() - p.len(), s.len() as int) =~= s@.skip(s.len() - p.len()));
    }
    r
}

pub fn ends_with_str(s: &[char], p: &str) -> (r: bool)
    ensures
        r == ends_with(s@, p@),
{
    let ps = chars_of(p);
    ends_with_exec(s, &ps)
}

/// `s.strip_prefix(p)`.
pub fn strip_prefix_str(s: &[char], p: &str) -> (r: Option<Vec<char>>)
    ensures
        r matches Some(v) ==> starts_with(s@, p@) && v@ == s@.skip(p@.len() as int),
        r is None ==> !starts_with(s@, p@),
{
    let ps = chars_of(p);
    if starts_with_exec(s, &ps) {
        Some(slice_of(s, ps.len(), s.len()))
    } else {
        None
    }
}

/// First index of `p` in `s` at or after `from`.
pub fn find_from_exec(s: &[char], p: &[char], from: usize) -> (r: Option<usize>)
    ensures
        r matches Some(k) ==> find_from(s@, p@, from as int) == Some(k as int),
        r is None ==> find_from(s@, p@, from as int) is None,
{
    let mut i = from;
    while i <= s.len() && p.len() <= s.len() - i
        invariant
            from <= i,
            find_from(s@, p@, from as int) == find_from(s@, p@, i as int),
        decreases s.len() + 1 - i,
    {
        if occurs_at_exec(s, p, i) {
            return Some(i);
        }
        proof {
            if p.len() == 0 {
                assert(s@.subrange(i as int, i as int) =~= p@);
            }
        }
        i += 1;
    }
    None
}

pub fn find_exec(s: &[char], p: &[char]) -> (r: Option<usize>)
    ensures
        r matches Some(k) ==> find(s@, p@) == Some(k as int),
        r is None ==> find(s@, p@) is None,
{
    find_from_exec(s, p, 0)
}

pub fn find_str(s: &[char], p: &str) -> (r: Option<usize>)
    ensures
        r matches Some(k) ==> find(s@, p@) == Some(k as int),
        r is None ==> find(s@, p@) is None,
{
    let ps = chars_of(p);
    find_exec(s, &ps)
}

pub fn contains_str(s: &[char], p: &str) -> (r: bool)
    ensures
        r == contains(s@, p@),
{
    find_str(s, p).is_some()
}

/// `s.split_once(p)`.
pub fn split_once_str(s: &[char], p: &str) -> (r: Option<(Vec<char>, Vec<char>)>)
    ensures
        r matches Some(v) ==> split_once(s@, p@) == Some((v.0@, v.1@)),
        r is None ==> split_once(s@, p@) is None,
{
    let ps = chars_of(p);
    match find_exec(s, &ps) {
        Some(k) => {
            proof {
                lemma_find_props(s@, ps@);
                assert(occurs_at(s@, ps@, k as int));
                assert(k + ps@.len() <= s@.len());
            }
            assert(k + ps.len() <= s.len());
            Some((slice_of(s, 0, k), slice_of(s, k + ps.len(), s.len())))
        },
        None => None,
    }
}

/// Bounds of `trim(s)` inside `s`.
pub fn trim_bounds(s: &[char]) -> (r: (usize, usize))
    ensures
        r.0 <= r.1 <= s.len(),
        s@.subrange(r.0 as int, r.1 as int) == trim(s@),
        s@.subrange(r.0 as int, s.len() as int) == trim_start(s@),
{
    let n = s.len();
    let mut lo: usize = 0;
    proof {
        assert(s@.skip(0) =~= s@);
    }
    while lo < n && is_ws_char(s[lo])
        invariant
            n == s.len(),
            0 <= lo <= n,
            trim_start(s@) == trim_start(s@.skip(lo as int)),
        decreases n - lo,
    {
        proof {
            lemma_trim_start_step(s@, lo as int);
        }
        lo += 1;
    }
    let ghost t = s@.skip(lo as int);
    proof {
        assert(t =~= s@.subrange(lo as int, n as int));
        if lo < n {
            assert(t[0] == s@[lo as int]);
        }
        assert(trim_start(t) == t);
    }
    let mut hi: usize = n;
    while hi > lo && is_ws_char(s[hi - 1])
        invariant
            n == s.len(),
            lo <= hi <= n,
            trim_end(s@.subrange(lo as int, n as int)) == trim_end(s@.subrange(lo as int, hi as int)),
        decreases hi,
    {
        proof {
            lemma_trim_end_step(s@, lo as int, hi as int);
        }
        hi -= 1;
    }
    proof {
        let u = s@.subrange(lo as int, hi as int);
        if hi > lo {
            assert(u.last() == s@[hi - 1]);
        }
        assert(trim_end(u) == u);
    }
    (lo, hi)
}

/// `s.trim_end()`, owned.
pub fn trim_end_exec(s: &[char]) -> (r: Vec<char>)
    ensures
        r@ == trim_end(s@),
{
    let mut hi: usize = s.len();
    proof {
        assert(s@.take(s.len() as int) =~= s@);
    }
    while hi > 0 && is_ws_char(s[hi - 1])
        invariant
            hi <= s.len(),
            trim_end(s@) == trim_end(s@.take(hi as int)),
        decreases hi,
    {
        proof {
            assert(s@.take(hi as int).drop_last() =~= s@.take(hi - 1));
        }
        hi -= 1;
    }
    proof {
        if hi > 0 {
            assert(s@.take(hi as int).last() == s@[hi - 1]);
        }
    }
    slice_of(s, 0, hi)
}

/// Does `p` occur in `s`?
pub fn contains_exec(s: &[char], p: &[char]) -> (r: bool)
    ensures
        r == contains(s@, p@),
{
    find_exec(s, p).is_some()
}

/// Is `x` among the strings of `v`?
pub fn contains_string(v: &Vec<String>, x: &[char]) -> (r: bool)
    ensures
        r == sv(v@).contains(x@),
{
    let mut i: usize = 0;
    while i < v.len()
        invariant
            0 <= i <= v.len(),
            forall|j: int| 0 <= j < i ==> sv(v@)[j] != x@,
        decreases v.len() - i,
    {
        let c = chars_of(v[i].as_str());
        proof {
            assert(sv(v@)[i as int] == v@[i as int]@);
        }
        if eq(&c, x) {
            proof {
                assert(sv(v@)[i as int] == x@);
            }
            return true;
        }
        i += 1;
    }
    false
}

/// `n` written in decimal, as `Display` writes it.
pub fn decimal_exec(n: usize) -> (r: Vec<char>)
    ensures
        r@ == decimal(n as nat),
    decreases n,
{
    if n < 10 {
        let c = ((n as u8) + 48) as char;
        let mut v: Vec<char> = Vec::new();
        v.push(c);
        proof {
            assert(v@ =~= seq![digit_char(n as int)]);
        }
        v
    } else {
        let mut v = decimal_exec(n / 10);
        let c = (((n % 10) as u8) + 48) as char;
        v.push(c);
        v
    }
}

/// `n` written in decimal.
pub fn decimal_wide(n: u128) -> (r: Vec<char>)
    ensures
        r@ == decimal(n as nat),
    decreases n,
{
    if n < 10 {
        let c = ((n as u8) + 48) as char;
        let mut v: Vec<char> = Vec::new();
        v.push(c);
        proof {
            assert(v@ =~= seq![digit_char(n as int)]);
        }
        v
    } else {
        let mut v = decimal_wide(n / 10);
        let c = (((n % 10) as u8) + 48) as char;
        v.push(c);
        v
    }
}

/// `s.chars().take(n).collect()`.
pub fn take_chars_exec(s: &[char], n: usize) -> (r: Vec<char>)
    ensures
        r@ == take_chars(s@, n as int),
{
    if s.len() <= n {
        copy(s)
    } else {
        slice_of(s, 0, n)
    }
}

/// `s.trim()`, owned.
pub fn trim_exec(s: &[char]) -> (r: Vec<char>)
    ensures
        r@ == trim(s@),
{
    let (lo, hi) = trim_bounds(s);
    slice_of(s, lo, hi)
}

/// `s.trim().is_empty()`.
pub fn is_blank_exec(s: &[char]) -> (r: bool)
    ensures
        r == is_blank(s@),
{
    let (lo, hi) = trim_bounds(s);
    lo == hi
}

/// `s.lines()`, each line owned.
pub fn split_lines(s: &[char]) -> (r: Vec<Vec<char>>)
    ensures
        vv(r@) == lines(s@),
{
    let mut out: Vec<Vec<char>> = Vec::new();
    let mut st: usize = 0;
    let mut i: usize = 0;
    proof {
        assert(s@.skip(0) =~= s@);
        assert(vv(out@) =~= Seq::<Seq<char>>::empty());
        assert(lines(s@) =~= vv(out@) + lines(s@.skip(0)));
    }
    while i < s.len()
        invariant
            0 <= st <= i <= s.len(),
            forall|j: int| st <= j < i ==> s@[j] != '\n',
            lines(s@) == vv(out@) + lines(s@.skip(st as int)),
        decreases s.len() - i,
    {
        if s[i] == '\n' {
            let mut end = i;
            if end > st && s[end - 1] == '\r' {
                end = end - 1;
            }
            let line = slice_of(s, st, end);
            proof {
                lemma_lines_step(s@, st as int, i as int);
                let piece = s@.subrange(st as int, i as int);
                assert(strip_cr(piece) =~= line@);
                lemma_vv_push(out@, line);
                assert(vv(out@) + (seq![line@] + lines(s@.skip(i + 1))) =~= vv(out@).push(line@)
                    + lines(s@.skip(i + 1)));
            }
            out.push(line);
            st = i + 1;
        }
        i += 1;
    }
    proof {
        lemma_lines_last(s@, st as int);
    }
    if st < s.len() {
        let line = slice_of(s, st, s.len());
        proof {
            assert(line@ =~= s@.skip(st as int));
            lemma_vv_push(out@, line);
        }
        out.push(line);
    } else {
        proof {
            assert(vv(out@) + Seq::<Seq<char>>::empty() =~= vv(out@));
        }
    }
    out
}

/// Lines of a string slice.
pub fn lines_of(s: &str) -> (r: Vec<Vec<char>>)
    ensures
        vv(r@) == lines(s@),
{
    let cs = chars_of(s);
    split_lines(&cs)
}

/// `ls[lo..hi].join(sep)`.
pub fn join_range(ls: &Vec<Vec<char>>, lo: usize, hi: usize, sep: &str) -> (r: Vec<char>)
    requires
        lo <= hi <= ls.len(),
    ensures
        r@ == join(vv(ls@).subrange(lo as int, hi as int), sep@),
{
    let seps = chars_of(sep);
    let mut out: Vec<char> = Vec::new();
    let mut i: usize = lo;
    proof {
        assert(vv(ls@).subrange(lo as int, lo as int) =~= Seq::<Seq<char>>::empty());
    }
    while i < hi
        invariant
            lo <= i <= hi <= ls.len(),
            seps@ == sep@,
            out@ == join(vv(ls@).subrange(lo as int, i as int), sep@),
        decreases hi - i,
    {
        proof {
            let t = vv(ls@).subrange(lo as int, i + 1);
            assert(t.drop_last() =~= vv(ls@).subrange(lo as int, i as int));
            assert(t.last() == ls@[i as int]@);
        }
        if i > lo {
            push_all(&mut out, &seps);
        } else {
            proof {
                assert(vv(ls@).subrange(lo as int, i + 1) =~= seq![ls@[i as int]@]);
            }
        }
        push_all(&mut out, &ls[i]);
        i += 1;
    }
    out
}

/// Each of `ls[lo..hi]` followed by `\n`.
pub fn push_lines_nl(out: &mut Vec<char>, ls: &Vec<Vec<char>>, lo: usize, hi: usize)
    requires
        lo <= hi <= ls.len(),
    ensures
        final(out)@ == old(out)@ + lines_nl(vv(ls@).subrange(lo as int, hi as int)),
{
    let ghost start = out@;
    let mut i: usize = lo;
    proof {
        assert(vv(ls@).subrange(lo as int, lo as int) =~= Seq::<Seq<char>>::empty());
        assert(start + lines_nl(Seq::<Seq<char>>::empty()) =~= start);
    }
    while i < hi
        invariant
            lo <= i <= hi <= ls.len(),
            out@ == start + lines_nl(vv(ls@).subrange(lo as int, i as int)),
        decreases hi - i,
    {
        proof {
            let t = vv(ls@).subrange(lo as int, i + 1);
            assert(t.drop_last() =~= vv(ls@).subrange(lo as int, i as int));
            assert(t.last() == ls@[i as int]@);
        }
        push_all(out, &ls[i]);
        out.push('\n');
        proof {
            let t = vv(ls@).subrange(lo as int, i + 1);
            assert(out@ =~= start + lines_nl(t));
        }
        i += 1;
    }
}

pub fn line_test_exec(l: &[char], kind: u8, p: &[char]) -> (r: bool)
    ensures
        r == line_test(l@, kind as int, p@),
{
    if kind == 0 {
        starts_with_exec(l, p)
    } else if kind == 1 {
        let t = trim_exec(l);
        eq(&t, p)
    } else {
        let t = trim_exec(l);
        starts_with_exec(&t, p)
    }
}

/// Index of the first line at or after `i` passing test `kind` against `p`.
pub fn first_line_exec(ls: &Vec<Vec<char>>, i: usize, kind: u8, p: &str) -> (r: Option<usize>)
    ensures
        r matches Some(k) ==> first_line(vv(ls@), i as int, kind as int, p@) == Some(k as int)
            && i <= k < ls.len(),
        r is None ==> first_line(vv(ls@), i as int, kind as int, p@) is None,
{
    let pc = chars_of(p);
    let mut j = i;
    while j < ls.len()
        invariant
            i <= j,
            pc@ == p@,
            first_line(vv(ls@), i as int, kind as int, p@) == first_line(
                vv(ls@),
                j as int,
                kind as int,
                p@,
            ),
        decreases ls.len() - j,
    {
        assert(vv(ls@)[j as int] == ls@[j as int]@);
        if line_test_exec(&ls[j], kind, &pc) {
            return Some(j);
        }
        j += 1;
    }
    None
}

/// The first non-blank line at or after `j`.
pub fn skip_blank_exec(ls: &Vec<Vec<char>>, j: usize) -> (r: usize)
    requires
        j <= ls.len(),
    ensures
        r == skip_blank(vv(ls@), j as int),
        j <= r <= ls.len(),
{
    let mut k = j;
    while k < ls.len() && is_blank_exec(&ls[k])
        invariant
            j <= k <= ls.len(),
            skip_blank(vv(ls@), j as int) == skip_blank(vv(ls@), k as int),
        decreases ls.len() - k,
    {
        assert(vv(ls@)[k as int] == ls@[k as int]@);
        k += 1;
    }
    proof {
        if k < ls.len() {
            assert(vv(ls@)[k as int] == ls@[k as int]@);
        }
    }
    k
}

/// Appends copies of `ls[lo..hi]` to `out`.
pub fn push_lines(out: &mut Vec<Vec<char>>, ls: &Vec<Vec<char>>, lo: usize, hi: usize)
    requires
        lo <= hi <= ls.len(),
    ensures
        vv(final(out)@) == vv(old(out)@) + vv(ls@).subrange(lo as int, hi as int),
{
    let ghost start = vv(out@);
    let mut i = lo;
    proof {
        assert(start + vv(ls@).subrange(lo as int, lo as int) =~= start);
    }
    while i < hi
        invariant
            lo <= i <= hi <= ls.len(),
            vv(out@) == start + vv(ls@).subrange(lo as int, i as int),
        decreases hi - i,
    {
        let l = copy(&ls[i]);
        proof {
            lemma_vv_push(out@, l);
        }
        out.push(l);
        proof {
            assert(start + vv(ls@).subrange(lo as int, i as int) + seq![ls@[i as int]@] =~= start
                + vv(ls@).subrange(lo as int, i + 1));
        }
        i += 1;
    }
}

/// Appends a line to a vector of lines.
pub fn push_line(out: &mut Vec<Vec<char>>, l: Vec<char>)
    ensures
        vv(final(out)@) == vv(old(out)@).push(l@),
{
    proof {
        lemma_vv_push(out@, l);
    }
    out.push(l);
}

/// `lines.join(sep)`.
pub fn join_exec(ls: &Vec<Vec<char>>, sep: &str) -> (r: Vec<char>)
    ensures
        r@ == join(vv(ls@), sep@),
{
    let seps = chars_of(sep);
    let mut out: Vec<char> = Vec::new();
    let mut i: usize = 0;
    while i < ls.len()
        invariant
            0 <= i <= ls.len(),
            seps@ == sep@,
            out@ == join(vv(ls@).take(i as int), sep@),
        decreases ls.len() - i,
    {
        proof {
            let t = vv(ls@).take(i + 1);
            assert(t.drop_last() =~= vv(ls@).take(i as int));
            assert(t.last() == ls@[i as int]@);
        }
        if i > 0 {
            push_all(&mut out, &seps);
        } else {
            proof {
                assert(vv(ls@).take(1) =~= seq![ls@[0]@]);
            }
        }
        push_all(&mut out, &ls[i]);
        i += 1;
    }
    proof {
        assert(vv(ls@).take(ls.len() as int) =~= vv(ls@));
    }
    out
}


// ------------------------------------------------------------------ counting lines

/// How many of the lines satisfy `p`.
pub open spec fn count_lines(ls: Seq<Seq<char>>, p: spec_fn(Seq<char>) -> bool) -> nat
    decreases ls.len(),
{
    if ls.len() == 0 {
        0
    } else {
        count_lines(ls.drop_last(), p) + if p(ls.last()) {
            1nat
        } else {
            0nat
        }
    }
}

pub proof fn lemma_count_one(l: Seq<char>, p: spec_fn(Seq<char>) -> bool)
    ensures
        count_lines(seq![l], p) == if p(l) {
            1nat
        } else {
            0nat
        },
{
    assert(seq![l].drop_last() =~= Seq::<Seq<char>>::empty());
    assert(seq![l].last() == l);
    assert(count_lines(Seq::<Seq<char>>::empty(), p) == 0);
    assert(count_lines(seq![l], p) == count_lines(seq![l].drop_last(), p) + if p(l) {
        1nat
    } else {
        0nat
    });
}

pub proof fn lemma_count_two(a: Seq<char>, b: Seq<char>, p: spec_fn(Seq<char>) -> bool)
    requires
        !p(a),
        !p(b),
    ensures
        count_lines(seq![a, b], p) == 0,
{
    lemma_count_one(a, p);
    lemma_count_one(b, p);
    lemma_count_add(seq![a], seq![b], p);
    assert(seq![a] + seq![b] =~= seq![a, b]);
}

pub proof fn lemma_count_add(a: Seq<Seq<char>>, b: Seq<Seq<char>>, p: spec_fn(Seq<char>) -> bool)
    ensures
        count_lines(a + b, p) == count_lines(a, p) + count_lines(b, p),
    decreases b.len(),
{
    if b.len() > 0 {
        lemma_count_add(a, b.drop_last(), p);
        assert((a + b).drop_last() =~= a + b.drop_last());
    } else {
        assert(a + b =~= a);
    }
}

/// Splitting at `k` and inserting `x` there adds `x`'s count.
pub proof fn lemma_count_insert(s: Seq<Seq<char>>, k: int, x: Seq<Seq<char>>, p: spec_fn(Seq<char>) -> bool)
    requires
        0 <= k <= s.len(),
    ensures
        count_lines(s.take(k) + x + s.skip(k), p) == count_lines(s, p) + count_lines(x, p),
{
    lemma_count_add(s.take(k) + x, s.skip(k), p);
    lemma_count_add(s.take(k), x, p);
    lemma_count_add(s.take(k), s.skip(k), p);
    assert(s.take(k) + s.skip(k) =~= s);
}

pub proof fn lemma_count_remove(s: Seq<Seq<char>>, k: int, p: spec_fn(Seq<char>) -> bool)
    requires
        0 <= k < s.len(),
        !p(s[k]),
    ensures
        count_lines(s.remove(k), p) == count_lines(s, p),
{
    lemma_count_insert(s.remove(k), k, seq![s[k]], p);
    assert(s.remove(k).take(k) + seq![s[k]] + s.remove(k).skip(k) =~= s);
    lemma_count_one(s[k], p);
}


// ------------------------------------------------------------------ lines round trip

/// A line as `lines` hands it out of text without carriage returns: no
/// `\n` and no `\r` in it.
pub open spec fn clean_line(l: Seq<char>) -> bool {
    forall|j: int| 0 <= j < l.len() ==> l[j] != '\n' && l[j] != '\r'
}

pub open spec fn no_cr(s: Seq<char>) -> bool {
    forall|j: int| 0 <= j < s.len() ==> s[j] != '\r'
}

/// Text that ends a line can be split off: `lines(x + y)` is `lines(x)`
/// followed by `lines(y)`.
pub proof fn lemma_lines_concat(x: Seq<char>, y: Seq<char>)
    requires
        x.len() == 0 || x.last() == '\n',
    ensures
        lines(x + y) == lines(x) + lines(y),
    decreases x.len(),
{
    if x.len() == 0 {
        assert(x + y =~= y);
    } else {
        lemma_first_nl(x);
        let i = first_nl(x) as int;
        assert(i < x.len()) by {
            if i == x.len() {
                assert(x[x.len() - 1] != '\n');
            }
        }
        let xy = x + y;
        assert forall|j: int| 0 <= j < i implies xy[j] != '\n' by {}
        lemma_first_nl_at(xy, i);
        let rest = x.skip(i + 1);
        if rest.len() > 0 {
            assert(rest.last() == x.last());
        }
        lemma_lines_concat(rest, y);
        assert(xy.take(i) =~= x.take(i));
        assert(xy.skip(i + 1) =~= rest + y);
    }
}

/// One clean line and its line ending read back as that line.
pub proof fn lemma_lines_one(l: Seq<char>)
    requires
        clean_line(l),
    ensures
        lines(l + seq!['\n']) == seq![l],
{
    let s = l + seq!['\n'];
    lemma_first_nl_at(s, l.len() as int);
    assert(s.take(l.len() as int) =~= l);
    assert(s.skip(l.len() as int + 1) =~= Seq::<char>::empty());
    assert(strip_cr(l) == l) by {
        if l.len() > 0 {
            assert(l.last() == l[l.len() - 1]);
        }
    }
    assert(lines(Seq::<char>::empty()) == Seq::<Seq<char>>::empty());
    assert(lines(s) == seq![strip_cr(s.take(l.len() as int))] + lines(s.skip(l.len() as int + 1)));
    assert(lines(s) =~= seq![l]);
}

/// Clean lines, each followed by `\n`, read back as themselves.
pub proof fn lemma_lines_nl_roundtrip(ls: Seq<Seq<char>>)
    requires
        forall|k: int| 0 <= k < ls.len() ==> clean_line(#[trigger] ls[k]),
    ensures
        lines(lines_nl(ls)) == ls,
    decreases ls.len(),
{
    if ls.len() == 0 {
    } else {
        let front = lines_nl(ls.drop_last());
        lemma_lines_nl_roundtrip(ls.drop_last());
        lemma_lines_nl_ends(ls.drop_last());
        assert(lines_nl(ls) =~= front + (ls.last() + seq!['\n']));
        lemma_lines_concat(front, ls.last() + seq!['\n']);
        lemma_lines_one(ls.last());
        assert(ls.drop_last() + seq![ls.last()] =~= ls);
    }
}

pub proof fn lemma_lines_nl_ends(ls: Seq<Seq<char>>)
    ensures
        lines_nl(ls).len() == 0 || lines_nl(ls).last() == '\n',
{
    if ls.len() > 0 {
        assert(lines_nl(ls) =~= lines_nl(ls.drop_last()) + ls.last() + seq!['\n']);
    }
}

/// Joining with `\n` and ending the last line gives every line its ending.
pub proof fn lemma_join_nl(ls: Seq<Seq<char>>)
    requires
        ls.len() > 0,
    ensures
        join(ls, "\n"@) + "\n"@ == lines_nl(ls),
    decreases ls.len(),
{
    reveal_strlit("\n");
    if ls.len() == 1 {
        assert(ls.drop_last() =~= Seq::<Seq<char>>::empty());
        assert(lines_nl(ls.drop_last()) == Seq::<char>::empty());
        assert(lines_nl(ls) =~= ls[0] + seq!['\n']);
    } else {
        lemma_join_nl(ls.drop_last());
        assert(join(ls, "\n"@) + "\n"@ =~= (join(ls.drop_last(), "\n"@) + "\n"@) + ls.last() + seq!['\n']);
    }
}

/// Lines of text without carriage returns are clean.
pub proof fn lemma_lines_clean(s: Seq<char>)
    requires
        no_cr(s),
    ensures
        forall|k: int| 0 <= k < lines(s).len() ==> clean_line(#[trigger] lines(s)[k]),
    decreases s.len(),
{
    if s.len() > 0 {
        lemma_first_nl(s);
        let i = first_nl(s) as int;
        if i < s.len() {
            let rest = s.skip(i + 1);
            lemma_lines_clean(rest);
            let l = strip_cr(s.take(i));
            assert(clean_line(l)) by {
                assert forall|j: int| 0 <= j < l.len() implies l[j] != '\n' && l[j] != '\r' by {
                    assert(l[j] == s[j]);
                }
            }
            assert forall|k: int| 0 <= k < lines(s).len() implies clean_line(#[trigger] lines(s)[k]) by {
                if k > 0 {
                    assert(lines(s)[k] == lines(rest)[k - 1]);
                }
            }
        } else {
            assert(lines(s) =~= seq![s]);
            assert(clean_line(s));
        }
    }
}
pub proof fn lemma_first_line_bounds(ls: Seq<Seq<char>>, i: int, kind: int, q: Seq<char>)
    ensures
        first_line(ls, i, kind, q) matches Some(k) ==> 0 <= i <= k < ls.len(),
    decreases ls.len() - i,
{
    if i < 0 || i >= ls.len() {
    } else if line_test(ls[i], kind, q) {
    } else {
        lemma_first_line_bounds(ls, i + 1, kind, q);
    }
}

/// The line `first_line` finds passes the test.
pub proof fn lemma_first_line_found(ls: Seq<Seq<char>>, i: int, kind: int, p: Seq<char>)
    ensures
        first_line(ls, i, kind, p) matches Some(k) ==> line_test(ls[k], kind, p),
    decreases ls.len() - i,
{
    if 0 <= i < ls.len() && !line_test(ls[i], kind, p) {
        lemma_first_line_found(ls, i + 1, kind, p);
    }
}

pub proof fn lemma_skip_blank_bounds(ls: Seq<Seq<char>>, j: int)
    requires
        0 <= j,
    ensures
        0 <= skip_blank(ls, j) <= ls.len(),
    decreases ls.len() - j,
{
    if j < ls.len() && is_blank(ls[j]) {
        lemma_skip_blank_bounds(ls, j + 1);
    }
}

/// A line whose first character is not whitespace is not blank, and it
/// only starts with a prefix it literally starts with.
pub proof fn lemma_solid_line(l: Seq<char>)
    requires
        l.len() > 0,
        !is_ws(l[0]),
    ensures
        trim_start(l) == l,
        !is_blank(l),
{
    lemma_trim_end_edges(l);
    if trim_end(l).len() == 0 {
        assert(trim_end(l) =~= l.take(0));
        let k = choose|k: int| 0 <= k < l.len() && !is_ws(l[k]);
        lemma_trim_end_keeps(l, 0);
    }
}

pub proof fn lemma_trim_end_keeps(l: Seq<char>, k: int)
    requires
        0 <= k < l.len(),
        !is_ws(l[k]),
    ensures
        trim_end(l).len() > k,
    decreases l.len(),
{
    if is_ws(l.last()) {
        lemma_trim_end_keeps(l.drop_last(), k);
    }
}


/// A line ending after text without one reads back as that text.
pub proof fn lemma_lines_nl_tail(s: Seq<char>)
    requires
        s.len() > 0,
        s.last() != '\n',
        no_cr(s),
    ensures
        lines(s + seq!['\n']) == lines(s),
    decreases s.len(),
{
    let sn = s + seq!['\n'];
    lemma_first_nl(s);
    let i = first_nl(s) as int;
    if i < s.len() {
        assert forall|j: int| 0 <= j < i implies sn[j] != '\n' by {}
        lemma_first_nl_at(sn, i);
        let rest = s.skip(i + 1);
        assert(i < s.len() - 1) by {
            if i == s.len() - 1 {
                assert(s.last() == s[i]);
            }
        }
        assert(rest.last() == s.last());
        lemma_lines_nl_tail(rest);
        assert(sn.take(i) =~= s.take(i));
        assert(sn.skip(i + 1) =~= rest + seq!['\n']);
    } else {
        lemma_first_nl_at(sn, s.len() as int);
        assert(sn.take(s.len() as int) =~= s);
        assert(sn.skip(s.len() as int + 1) =~= Seq::<char>::empty());
        assert(strip_cr(s) == s) by {
            assert(s.last() == s[s.len() - 1]);
        }
        assert(lines(sn) == seq![strip_cr(sn.take(s.len() as int))] + lines(sn.skip(s.len() as int + 1)));
        assert(lines(Seq::<char>::empty()) == Seq::<Seq<char>>::empty());
        assert(lines(sn) =~= seq![s]);
        assert(lines(s) == seq![s]);
    }
}

pub proof fn lemma_lines_nl_cons(a: Seq<char>, ls: Seq<Seq<char>>)
    ensures
        lines_nl(seq![a] + ls) == a + seq!['\n'] + lines_nl(ls),
    decreases ls.len(),
{
    if ls.len() == 0 {
        assert(seq![a] + ls =~= seq![a]);
        assert(seq![a].drop_last() =~= Seq::<Seq<char>>::empty());
        assert(lines_nl(Seq::<Seq<char>>::empty()) == Seq::<char>::empty());
        assert(lines_nl(seq![a]) =~= a + seq!['\n']);
        assert(a + seq!['\n'] + lines_nl(ls) =~= a + seq!['\n']);
    } else {
        lemma_lines_nl_cons(a, ls.drop_last());
        assert((seq![a] + ls).drop_last() =~= seq![a] + ls.drop_last());
        assert((seq![a] + ls).last() == ls.last());
        assert(lines_nl(seq![a] + ls) =~= a + seq!['\n'] + lines_nl(ls));
    }
}

/// The lines of text without carriage returns, each given back its line
/// ending, are the text with a final line ending.
pub proof fn lemma_lines_nl_lines(s: Seq<char>)
    requires
        s.len() > 0,
        s.last() != '\n',
        no_cr(s),
    ensures
        lines_nl(lines(s)) == s + seq!['\n'],
    decreases s.len(),
{
    lemma_first_nl(s);
    let i = first_nl(s) as int;
    if i < s.len() {
        let rest = s.skip(i + 1);
        assert(i < s.len() - 1) by {
            if i == s.len() - 1 {
                assert(s.last() == s[i]);
            }
        }
        assert(rest.last() == s.last());
        lemma_lines_nl_lines(rest);
        let l = strip_cr(s.take(i));
        assert(l == s.take(i)) by {
            if i > 0 {
                assert(s.take(i).last() == s[i - 1]);
            }
        }
        lemma_lines_nl_cons(l, lines(rest));
        assert(s + seq!['\n'] =~= s.take(i) + seq!['\n'] + (rest + seq!['\n']));
    } else {
        assert(lines(s) == seq![s]);
        lemma_lines_nl_cons(s, Seq::<Seq<char>>::empty());
        assert(seq![s] + Seq::<Seq<char>>::empty() =~= seq![s]);
        assert(lines_nl(Seq::<Seq<char>>::empty()) == Seq::<char>::empty());
    }
}
} // verus!
