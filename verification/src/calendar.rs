//! Calendar facts and the calls into `chrono` that parse and render dates and
//! times. Everything here that `chrono` computes is reached through a trusted
//! wrapper whose contract says what the crate's source does.
use chrono::Datelike;
use chrono::Timelike;
use crate::text::{decimal, digit_char};
use vstd::prelude::*;

verus! {

// ----------------------------------------------------------- calendar

pub open spec fn is_leap(y: int) -> bool {
    (y % 4 == 0 && y % 100 != 0) || y % 400 == 0
}

pub open spec fn days_in_month(y: int, m: int) -> int {
    if m == 2 {
        if is_leap(y) {
            29
        } else {
            28
        }
    } else if m == 4 || m == 6 || m == 9 || m == 11 {
        30
    } else {
        31
    }
}

/// A day that `chrono::NaiveDate` can hold.
pub open spec fn valid_ymd(y: int, m: int, d: int) -> bool {
    &&& -262143 <= y <= 262142
    &&& 1 <= m <= 12
    &&& 1 <= d <= days_in_month(y, m)
}

// ------------------------------------------------------- decimal text

/// `n` in decimal, left-padded with zeros to at least `w` digits.
pub open spec fn padded(n: nat, w: nat) -> Seq<char> {
    let ds = decimal(n);
    if ds.len() >= w {
        ds
    } else {
        Seq::new((w - ds.len()) as nat, |i: int| '0') + ds
    }
}

/// `%Y`: four digits inside 0..=9999, otherwise an explicit sign.
pub open spec fn year_text(y: int) -> Seq<char> {
    if 0 <= y <= 9999 {
        padded(y as nat, 4)
    } else if y < 0 {
        seq!['-'] + padded((-y) as nat, 4)
    } else {
        seq!['+'] + padded(y as nat, 4)
    }
}

// ------------------------------------------------------- the patterns

pub open spec fn pat_iso() -> Seq<char> {
    seq!['%', 'Y', '-', '%', 'm', '-', '%', 'd']
}

pub open spec fn pat_mdy() -> Seq<char> {
    seq!['%', 'm', '/', '%', 'd', '/', '%', 'Y']
}

pub open spec fn pat_dmy() -> Seq<char> {
    seq!['%', 'd', '/', '%', 'm', '/', '%', 'Y']
}

pub open spec fn pat_hm() -> Seq<char> {
    seq!['%', 'H', ':', '%', 'M']
}

pub open spec fn pat_hms() -> Seq<char> {
    seq!['%', 'H', ':', '%', 'M', ':', '%', 'S']
}

pub open spec fn pat_12h() -> Seq<char> {
    seq!['%', 'I', ':', '%', 'M', ' ', '%', 'p']
}

pub open spec fn is_date_pattern(f: Seq<char>) -> bool {
    f == pat_iso() || f == pat_mdy() || f == pat_dmy()
}

/// What `NaiveDate::format(f)` writes for one of the three date patterns.
pub open spec fn date_text(y: int, m: int, d: int, f: Seq<char>) -> Seq<char> {
    if f == pat_iso() {
        year_text(y) + seq!['-'] + padded(m as nat, 2) + seq!['-'] + padded(d as nat, 2)
    } else if f == pat_mdy() {
        padded(m as nat, 2) + seq!['/'] + padded(d as nat, 2) + seq!['/'] + year_text(y)
    } else {
        padded(d as nat, 2) + seq!['/'] + padded(m as nat, 2) + seq!['/'] + year_text(y)
    }
}

/// What `NaiveTime::format(f)` writes for `%H:%M` or `%I:%M %p`.
pub open spec fn time_text(h: int, m: int, f: Seq<char>) -> Seq<char> {
    if f == pat_12h() {
        let h12 = if h % 12 == 0 {
            12
        } else {
            h % 12
        };
        padded(h12 as nat, 2) + seq![':'] + padded(m as nat, 2) + seq![' '] + if h >= 12 {
            seq!['P', 'M']
        } else {
            seq!['A', 'M']
        }
    } else {
        padded(h as nat, 2) + seq![':'] + padded(m as nat, 2)
    }
}

/// A date whose `%Y` is four plain digits.
pub open spec fn canonical_ymd(y: int, m: int, d: int) -> bool {
    valid_ymd(y, m, d) && 0 <= y <= 9999
}

pub open spec fn is_digit_char(c: char) -> bool {
    48 <= (c as u32) <= 57
}

pub proof fn lemma_decimal_digits(n: nat)
    ensures
        decimal(n).len() >= 1,
        forall|i: int| 0 <= i < decimal(n).len() ==> is_digit_char(#[trigger] decimal(n)[i]),
    decreases n,
{
    if n >= 10 {
        lemma_decimal_digits(n / 10);
        let p = decimal(n / 10);
        assert forall|i: int| 0 <= i < decimal(n).len() implies is_digit_char(
            #[trigger] decimal(n)[i],
        ) by {
            if i < p.len() {
                assert(decimal(n)[i] == p[i]);
            }
        }
    }
}

/// A time written `HH:MM` has no whitespace to trim.
pub proof fn lemma_hm_text_trimmed(h: int, m: int)
    requires
        0 <= h < 24,
        0 <= m < 60,
    ensures
        crate::text::trim(time_text(h, m, pat_hm())) == time_text(h, m, pat_hm()),
{
    let a = padded(h as nat, 2);
    let b = padded(m as nat, 2);
    lemma_padded_digits(h as nat, 2);
    lemma_padded_digits(m as nat, 2);
    let t = time_text(h, m, pat_hm());
    assert(t == a + seq![':'] + b);
    assert(t[0] == a[0]);
    assert(t.last() == b[b.len() - 1]);
    assert(is_digit_char(a[0]) && is_digit_char(b[b.len() - 1]));
    crate::text::lemma_trim_noop(t);
}

pub proof fn lemma_padded_digits(n: nat, w: nat)
    ensures
        padded(n, w).len() >= 1,
        forall|i: int| 0 <= i < padded(n, w).len() ==> is_digit_char(#[trigger] padded(n, w)[i]),
{
    lemma_decimal_digits(n);
    let ds = decimal(n);
    if ds.len() < w {
        let z = Seq::new((w - ds.len()) as nat, |i: int| '0');
        assert forall|i: int| 0 <= i < padded(n, w).len() implies is_digit_char(
            #[trigger] padded(n, w)[i],
        ) by {
            if i < z.len() {
                assert(padded(n, w)[i] == '0');
            } else {
                assert(padded(n, w)[i] == ds[i - z.len()]);
            }
        }
    }
}

/// A rendered canonical date starts and ends with a digit.
pub proof fn lemma_date_text_edges(y: int, m: int, d: int, f: Seq<char>)
    requires
        canonical_ymd(y, m, d),
    ensures
        date_text(y, m, d, f).len() > 0,
        is_digit_char(date_text(y, m, d, f)[0]),
        is_digit_char(date_text(y, m, d, f).last()),
{
    lemma_padded_digits(y as nat, 4);
    lemma_padded_digits(m as nat, 2);
    lemma_padded_digits(d as nat, 2);
    let t = date_text(y, m, d, f);
    let yt = padded(y as nat, 4);
    let mt = padded(m as nat, 2);
    let dt = padded(d as nat, 2);
    if f == pat_iso() {
        assert(t == yt + seq!['-'] + mt + seq!['-'] + dt);
        assert(t[0] == yt[0]);
        assert(t.last() == dt.last());
    } else if f == pat_mdy() {
        assert(t[0] == mt[0]);
        assert(t.last() == yt.last());
    } else {
        assert(t[0] == dt[0]);
        assert(t.last() == yt.last());
    }
}

// ------------------------------------------------------- chrono calls

/// What `chrono::NaiveDate::parse_from_str(s, fmt)` gives, as
/// (year, month, day).
pub uninterp spec fn naive_date_parse(s: Seq<char>, fmt: Seq<char>) -> Option<(i32, u32, u32)>;

/// What `chrono::NaiveTime::parse_from_str(s, fmt)` gives, as
/// (hour, minute, second).
pub uninterp spec fn naive_time_parse(s: Seq<char>, fmt: Seq<char>) -> Option<(u32, u32, u32)>;

/// Calls `chrono::NaiveDate::parse_from_str`. Claimed: the result is
/// determined by the two arguments; any date it returns is one a
/// `NaiveDate` can hold; and a date rendered in one of the three patterns
/// (year 0..=9999) parses back to itself with that pattern. What it does
/// with any other text (leniency about widths, signs, leading spaces) is
/// left to the name.
#[verifier::external_body]
pub(crate) fn parse_date_with(s: &str, fmt: &str) -> (r: Option<(i32, u32, u32)>)
    ensures
        r == naive_date_parse(s@, fmt@),
        r matches Some(t) ==> valid_ymd(t.0 as int, t.1 as int, t.2 as int),
        forall|y: i32, m: u32, d: u32|
            #![trigger date_text(y as int, m as int, d as int, fmt@)]
            is_date_pattern(fmt@) && valid_ymd(y as int, m as int, d as int) && 0 <= y <= 9999
                && s@ == date_text(y as int, m as int, d as int, fmt@) ==> r == Some((y, m, d)),
{
    chrono::NaiveDate::parse_from_str(s, fmt).ok().map(|d| (d.year(), d.month(), d.day()))
}

/// Calls `NaiveDate::format(fmt)` on the date `y-m-d` and renders it.
/// Claimed: the text is exactly `date_text` (two-digit month and day; the
/// year as `%Y` writes it).
#[verifier::external_body]
pub(crate) fn render_date(y: i32, m: u32, d: u32, fmt: &str) -> (r: String)
    requires
        valid_ymd(y as int, m as int, d as int),
        is_date_pattern(fmt@),
    ensures
        r@ == date_text(y as int, m as int, d as int, fmt@),
{
    chrono::NaiveDate::from_ymd_opt(y, m, d).unwrap().format(fmt).to_string()
}

/// Calls `chrono::NaiveTime::parse_from_str`. Claimed: the result is
/// determined by the arguments and is a time of day (hour < 24,
/// minute < 60, second < 60 once a leap second is folded in); and a time
/// written `HH:MM` parses back with `%H:%M` to itself.
#[verifier::external_body]
pub(crate) fn parse_time_with(s: &str, fmt: &str) -> (r: Option<(u32, u32, u32)>)
    ensures
        r == naive_time_parse(s@, fmt@),
        r matches Some(t) ==> t.0 < 24 && t.1 < 60 && t.2 < 60,
        forall|h: u32, m: u32|
            #![trigger time_text(h as int, m as int, fmt@)]
            fmt@ == pat_hm() && h < 24 && m < 60 && s@ == time_text(h as int, m as int, fmt@) ==> r == Some(
                (h, m, 0u32),
            ),
{
    chrono::NaiveTime::parse_from_str(s, fmt).ok().map(|t| (t.hour(), t.minute(), t.second()))
}

/// Calls `chrono::NaiveTime::from_hms_opt(h, m, 0)`: `None` exactly when the
/// hour or minute is out of range.
#[verifier::external_body]
pub(crate) fn time_from_hm(h: u32, m: u32) -> (r: Option<(u32, u32, u32)>)
    ensures
        r == (if h < 24 && m < 60 {
            Some((h, m, 0u32))
        } else {
            None
        }),
{
    chrono::NaiveTime::from_hms_opt(h, m, 0).map(|t| (t.hour(), t.minute(), t.second()))
}

/// Calls `NaiveTime::format(fmt)` on `h:m:s` and renders it. Claimed: the
/// text is exactly `time_text` (the seconds are not shown by either pattern).
#[verifier::external_body]
pub(crate) fn render_time(h: u32, m: u32, s: u32, fmt: &str) -> (r: String)
    requires
        h < 24,
        m < 60,
        s < 60,
        fmt@ == pat_hm() || fmt@ == pat_12h(),
    ensures
        r@ == time_text(h as int, m as int, fmt@),
{
    chrono::NaiveTime::from_hms_opt(h, m, s).unwrap().format(fmt).to_string()
}

/// Calls `sys_locale::get_locale`. It reads the operating system's settings,
/// so nothing is claimed of what comes back.
#[verifier::external_body]
pub(crate) fn system_locale() -> (r: Option<String>) {
    sys_locale::get_locale()
}

} // verus!
