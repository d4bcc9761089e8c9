//! Display date/time formatting. Vault paths and ids stay ISO (`YYYY-MM-DD`);
//! human-visible stamps in note bodies follow the user's chosen format.
use crate::calendar::{
    canonical_ymd, date_text, lemma_date_text_edges, naive_date_parse, naive_time_parse, parse_date_with, parse_time_with, pat_12h,
    pat_dmy, pat_hm, pat_hms, pat_iso, pat_mdy, render_date, render_time, system_locale,
    time_from_hm, time_text,
};
use crate::text::{
    chars_of, eq_str, lowercase, push_str, slice_of, starts_with, starts_with_str, to_lowercase,
    to_string, trim, trim_exec, lemma_trim_noop,
};
use vstd::prelude::*;

verus! {

pub const DEFAULT_DATE_FORMAT: &'static str = "DD/MM/YYYY";

pub const DEFAULT_TIME_FORMAT: &'static str = "24h";

// ------------------------------------------------------------------ specs

pub open spec fn spec_normalize_date_format(s: Seq<char>) -> Seq<char> {
    let t = trim(s);
    if t == "MM/DD/YYYY"@ {
        "MM/DD/YYYY"@
    } else if t == "YYYY-MM-DD"@ {
        "YYYY-MM-DD"@
    } else {
        "DD/MM/YYYY"@
    }
}

pub open spec fn spec_normalize_time_format(s: Seq<char>) -> Seq<char> {
    let t = lowercase(trim(s));
    if t == "12h"@ || t == "12"@ || t == "ampm"@ {
        "12h"@
    } else {
        "24h"@
    }
}

/// The chrono pattern a display date is written with.
pub open spec fn display_pattern(fmt: Seq<char>) -> Seq<char> {
    let n = spec_normalize_date_format(fmt);
    if n == "MM/DD/YYYY"@ {
        pat_mdy()
    } else if n == "YYYY-MM-DD"@ {
        pat_iso()
    } else {
        pat_dmy()
    }
}

pub open spec fn spec_format_date(iso: Seq<char>, fmt: Seq<char>) -> Seq<char> {
    match naive_date_parse(trim(iso), pat_iso()) {
        Some(t) => date_text(t.0 as int, t.1 as int, t.2 as int, display_pattern(fmt)),
        None => iso,
    }
}

pub open spec fn is_digit(c: char) -> bool {
    48 <= (c as u32) <= 57
}

pub open spec fn two_digit_value(a: char, b: char) -> int {
    ((a as u32) - 48) * 10 + ((b as u32) - 48)
}

/// `parse_time`: `HH:MM`, `HH:MM:SS` or four bare digits.
pub open spec fn spec_parse_time(time: Seq<char>) -> Option<(u32, u32, u32)> {
    let t = trim(time);
    if naive_time_parse(t, pat_hm()) is Some {
        naive_time_parse(t, pat_hm())
    } else if naive_time_parse(t, pat_hms()) is Some {
        naive_time_parse(t, pat_hms())
    } else if t.len() == 4 && is_digit(t[0]) && is_digit(t[1]) && is_digit(t[2]) && is_digit(
        t[3],
    ) {
        let hh = two_digit_value(t[0], t[1]);
        let mm = two_digit_value(t[2], t[3]);
        if hh < 24 && mm < 60 {
            Some((hh as u32, mm as u32, 0u32))
        } else {
            None
        }
    } else {
        None
    }
}

/// `trim_start_matches('0')`.
pub open spec fn trim_zeros(s: Seq<char>) -> Seq<char>
    decreases s.len(),
{
    if s.len() > 0 && s[0] == '0' {
        trim_zeros(s.drop_first())
    } else {
        s
    }
}

pub open spec fn spec_format_time(time: Seq<char>, fmt: Seq<char>) -> Seq<char> {
    match spec_parse_time(time) {
        Some(t) => if spec_normalize_time_format(fmt) == "12h"@ {
            trim_zeros(time_text(t.0 as int, t.1 as int, pat_12h()))
        } else {
            time_text(t.0 as int, t.1 as int, pat_hm())
        },
        None => time,
    }
}

/// The patterns a display date is tried against, preferred first.
pub open spec fn date_patterns(fmt: Seq<char>) -> Seq<Seq<char>> {
    let n = spec_normalize_date_format(fmt);
    if n == "MM/DD/YYYY"@ {
        seq![pat_mdy(), pat_iso(), pat_dmy()]
    } else if n == "YYYY-MM-DD"@ {
        seq![pat_iso(), pat_dmy(), pat_mdy()]
    } else {
        seq![pat_dmy(), pat_iso(), pat_mdy()]
    }
}

/// The first pattern that parses `t` wins.
pub open spec fn parse_first(t: Seq<char>, pats: Seq<Seq<char>>) -> Option<(i32, u32, u32)>
    decreases pats.len(),
{
    if pats.len() == 0 {
        None
    } else {
        match naive_date_parse(t, pats[0]) {
            Some(d) => Some(d),
            None => parse_first(t, pats.drop_first()),
        }
    }
}

pub open spec fn spec_parse_date_to_iso(s: Seq<char>, fmt: Seq<char>) -> Option<Seq<char>> {
    let t = trim(s);
    if t.len() == 0 {
        None
    } else {
        match parse_first(t, date_patterns(fmt)) {
            Some(d) => Some(date_text(d.0 as int, d.1 as int, d.2 as int, pat_iso())),
            None => None,
        }
    }
}

pub open spec fn spec_date_format_for_locale(l: Seq<char>) -> Seq<char> {
    if starts_with(l, "sv"@) || starts_with(l, "lt"@) || starts_with(l, "hu"@) || starts_with(
        l,
        "ja"@,
    ) || starts_with(l, "zh"@) || starts_with(l, "ko"@) {
        "YYYY-MM-DD"@
    } else if starts_with(l, "en-us"@) || starts_with(l, "en_us"@) {
        "MM/DD/YYYY"@
    } else {
        "DD/MM/YYYY"@
    }
}

pub open spec fn twelve_hour_locale(l: Seq<char>) -> bool {
    ||| starts_with(l, "en-us"@)
    ||| starts_with(l, "en_us"@)
    ||| starts_with(l, "en-ca"@)
    ||| starts_with(l, "en_ca"@)
    ||| starts_with(l, "en-au"@)
    ||| starts_with(l, "en_au"@)
    ||| starts_with(l, "en-nz"@)
    ||| starts_with(l, "en_nz"@)
    ||| starts_with(l, "en-ph"@)
    ||| starts_with(l, "en_ph"@)
}

pub open spec fn spec_time_format_for_locale(l: Seq<char>) -> Seq<char> {
    if twelve_hour_locale(l) {
        "12h"@
    } else {
        "24h"@
    }
}

// ------------------------------------------------------------------ exec

/// A supported date format name; anything else means `DD/MM/YYYY`.
pub fn normalize_date_format(s: &str) -> (r: &str)
    ensures
        r@ == spec_normalize_date_format(s@),
{
    let cs = chars_of(s);
    let t = trim_exec(&cs);
    if eq_str(&t, "MM/DD/YYYY") {
        "MM/DD/YYYY"
    } else if eq_str(&t, "YYYY-MM-DD") {
        "YYYY-MM-DD"
    } else {
        DEFAULT_DATE_FORMAT
    }
}

/// `12h` for the spellings of a twelve-hour clock, `24h` otherwise.
pub fn normalize_time_format(s: &str) -> (r: &str)
    ensures
        r@ == spec_normalize_time_format(s@),
{
    let cs = chars_of(s);
    let t = to_string(&trim_exec(&cs));
    let low = to_lowercase(t.as_str());
    let lc = chars_of(low.as_str());
    if eq_str(&lc, "12h") || eq_str(&lc, "12") || eq_str(&lc, "ampm") {
        "12h"
    } else {
        DEFAULT_TIME_FORMAT
    }
}

fn display_pattern_exec(fmt: &str) -> (r: &str)
    ensures
        r@ == display_pattern(fmt@),
{
    let n = normalize_date_format(fmt);
    let nc = chars_of(n);
    proof {
        reveal_strlit("%m/%d/%Y");
        reveal_strlit("%Y-%m-%d");
        reveal_strlit("%d/%m/%Y");
        assert("%m/%d/%Y"@ =~= pat_mdy());
        assert("%Y-%m-%d"@ =~= pat_iso());
        assert("%d/%m/%Y"@ =~= pat_dmy());
    }
    if eq_str(&nc, "MM/DD/YYYY") {
        "%m/%d/%Y"
    } else if eq_str(&nc, "YYYY-MM-DD") {
        "%Y-%m-%d"
    } else {
        "%d/%m/%Y"
    }
}

fn iso_pattern() -> (r: &'static str)
    ensures
        r@ == pat_iso(),
{
    proof {
        reveal_strlit("%Y-%m-%d");
        assert("%Y-%m-%d"@ =~= pat_iso());
    }
    "%Y-%m-%d"
}

/// Format an ISO date (`YYYY-MM-DD`) for display. Unknown input is returned as-is.
pub fn format_date(iso: &str, fmt: &str) -> (r: String)
    ensures
        r@ == spec_format_date(iso@, fmt@),
        forall|y: i32, m: u32, d: u32|
            #![trigger date_text(y as int, m as int, d as int, pat_iso())]
            canonical_ymd(y as int, m as int, d as int) && iso@ == date_text(
                y as int,
                m as int,
                d as int,
                pat_iso(),
            ) ==> r@ == date_text(y as int, m as int, d as int, display_pattern(fmt@)),
{
    let cs = chars_of(iso);
    let t = to_string(&trim_exec(&cs));
    proof {
        assert forall|y: i32, m: u32, d: u32|
            canonical_ymd(y as int, m as int, d as int) && iso@ == date_text(
                y as int,
                m as int,
                d as int,
                pat_iso(),
            ) implies t@ == iso@ by {
            lemma_date_text_edges(y as int, m as int, d as int, pat_iso());
            lemma_trim_noop(iso@);
        }
    }
    match parse_date_with(t.as_str(), iso_pattern()) {
        Some((y, m, d)) => render_date(y, m, d, display_pattern_exec(fmt)),
        None => to_string(&cs),
    }
}

/// `0`-`9`.
pub fn is_digit_exec(c: char) -> (r: bool)
    ensures
        r == is_digit(c),
{
    let n = c as u32;
    48 <= n && n <= 57
}

fn parse_time(time: &str) -> (r: Option<(u32, u32, u32)>)
    ensures
        r == spec_parse_time(time@),
        r matches Some(t) ==> t.0 < 24 && t.1 < 60 && t.2 < 60,
        forall|h: u32, m: u32|
            #![trigger time_text(h as int, m as int, pat_hm())]
            h < 24 && m < 60 && time@ == time_text(h as int, m as int, pat_hm()) ==> r == Some((h, m, 0u32)),
{
    let cs = chars_of(time);
    let tv = trim_exec(&cs);
    let t = to_string(&tv);
    proof {
        reveal_strlit("%H:%M");
        reveal_strlit("%H:%M:%S");
        assert("%H:%M"@ =~= pat_hm());
        assert("%H:%M:%S"@ =~= pat_hms());
        assert forall|h: u32, m: u32|
            #![trigger time_text(h as int, m as int, pat_hm())]
            h < 24 && m < 60 && time@ == time_text(h as int, m as int, pat_hm()) implies t@ == time_text(
                h as int,
                m as int,
                pat_hm(),
            ) by {
            crate::calendar::lemma_hm_text_trimmed(h as int, m as int);
        }
    }
    if let Some(v) = parse_time_with(t.as_str(), "%H:%M") {
        return Some(v);
    }
    if let Some(v) = parse_time_with(t.as_str(), "%H:%M:%S") {
        return Some(v);
    }
    if tv.len() == 4 && is_digit_exec(tv[0]) && is_digit_exec(tv[1]) && is_digit_exec(tv[2])
        && is_digit_exec(tv[3]) {
        assert(is_digit(tv@[0]) && is_digit(tv@[1]) && is_digit(tv@[2]) && is_digit(tv@[3]));
        let hh = (tv[0] as u32 - 48) * 10 + (tv[1] as u32 - 48);
        let mm = (tv[2] as u32 - 48) * 10 + (tv[3] as u32 - 48);
        return time_from_hm(hh, mm);
    }
    None
}

/// Format a time like `14:30` or `1430`. Unknown input is returned as-is.
pub fn format_time(time: &str, fmt: &str) -> (r: String)
    ensures
        r@ == spec_format_time(time@, fmt@),
        forall|h: u32, m: u32|
            #![trigger time_text(h as int, m as int, pat_hm())]
            h < 24 && m < 60 && time@ == time_text(h as int, m as int, pat_hm()) ==> r@ == (if spec_normalize_time_format(
                fmt@,
            ) == "12h"@ {
                trim_zeros(time_text(h as int, m as int, pat_12h()))
            } else {
                time_text(h as int, m as int, pat_hm())
            }),
{
    match parse_time(time) {
        Some((h, m, s)) => {
            let tf = normalize_time_format(fmt);
            let tfc = chars_of(tf);
            proof {
                reveal_strlit("%I:%M %p");
                reveal_strlit("%H:%M");
                assert("%I:%M %p"@ =~= pat_12h());
                assert("%H:%M"@ =~= pat_hm());
            }
            if eq_str(&tfc, "12h") {
                let full = render_time(h, m, s, "%I:%M %p");
                let fc = chars_of(full.as_str());
                let mut i: usize = 0;
                proof {
                    assert(fc@.skip(0) =~= fc@);
                }
                while i < fc.len() && fc[i] == '0'
                    invariant
                        0 <= i <= fc.len(),
                        trim_zeros(fc@) == trim_zeros(fc@.skip(i as int)),
                    decreases fc.len() - i,
                {
                    proof {
                        assert(fc@.skip(i as int).drop_first() =~= fc@.skip(i + 1));
                    }
                    i += 1;
                }
                let rest = slice_of(&fc, i, fc.len());
                proof {
                    assert(rest@ =~= fc@.skip(i as int));
                }
                to_string(&rest)
            } else {
                render_time(h, m, s, "%H:%M")
            }
        },
        None => time.to_string(),
    }
}

/// Parse a human or ISO date into ISO `YYYY-MM-DD`, preferring the user's format.
pub fn parse_date_to_iso(s: &str, preferred_fmt: &str) -> (r: Option<String>)
    ensures
        r matches Some(v) ==> spec_parse_date_to_iso(s@, preferred_fmt@) == Some(v@),
        r is None ==> spec_parse_date_to_iso(s@, preferred_fmt@) is None,
        forall|y: i32, m: u32, d: u32|
            #![trigger date_text(y as int, m as int, d as int, display_pattern(preferred_fmt@))]
            canonical_ymd(y as int, m as int, d as int) && s@ == date_text(
                y as int,
                m as int,
                d as int,
                display_pattern(preferred_fmt@),
            ) ==> (r matches Some(v) && v@ == date_text(y as int, m as int, d as int, pat_iso())),
{
    let cs = chars_of(s);
    let tv = trim_exec(&cs);
    proof {
        assert forall|y: i32, m: u32, d: u32|
            canonical_ymd(y as int, m as int, d as int) && s@ == date_text(
                y as int,
                m as int,
                d as int,
                display_pattern(preferred_fmt@),
            ) implies tv@ == s@ by {
            lemma_date_text_edges(y as int, m as int, d as int, display_pattern(preferred_fmt@));
            lemma_trim_noop(s@);
        }
    }
    if tv.len() == 0 {
        return None;
    }
    let t = to_string(&tv);
    let n = normalize_date_format(preferred_fmt);
    let nc = chars_of(n);
    proof {
        reveal_strlit("%m/%d/%Y");
        reveal_strlit("%Y-%m-%d");
        reveal_strlit("%d/%m/%Y");
        assert("%m/%d/%Y"@ =~= pat_mdy());
        assert("%Y-%m-%d"@ =~= pat_iso());
        assert("%d/%m/%Y"@ =~= pat_dmy());
    }
    let (p0, p1, p2) = if eq_str(&nc, "MM/DD/YYYY") {
        ("%m/%d/%Y", "%Y-%m-%d", "%d/%m/%Y")
    } else if eq_str(&nc, "YYYY-MM-DD") {
        ("%Y-%m-%d", "%d/%m/%Y", "%m/%d/%Y")
    } else {
        ("%d/%m/%Y", "%Y-%m-%d", "%m/%d/%Y")
    };
    let ghost pats = date_patterns(preferred_fmt@);
    assert(pats == seq![p0@, p1@, p2@]);
    assert(pats.drop_first() =~= seq![p1@, p2@]);
    assert(pats.drop_first().drop_first() =~= seq![p2@]);
    assert(seq![p2@].drop_first() =~= Seq::<Seq<char>>::empty());
    let found = match parse_date_with(t.as_str(), p0) {
        Some(d) => Some(d),
        None => match parse_date_with(t.as_str(), p1) {
            Some(d) => Some(d),
            None => parse_date_with(t.as_str(), p2),
        },
    };
    proof {
        reveal_with_fuel(parse_first, 4);
    }
    match found {
        Some((y, m, d)) => Some(render_date(y, m, d, iso_pattern())),
        None => None,
    }
}

/// The message a date that is not `YYYY-MM-DD` is refused with.
pub open spec fn date_error(date: Seq<char>) -> Seq<char> {
    "'"@ + date + "' is not a YYYY-MM-DD date"@
}

/// `Ok((year, month, day))` when `date` is a `YYYY-MM-DD` date.
pub fn valid_date(date: &str) -> (r: Result<(i32, u32, u32), String>)
    ensures
        r matches Ok(t) ==> naive_date_parse(date@, pat_iso()) == Some(t),
        r matches Err(e) ==> naive_date_parse(date@, pat_iso()) is None && e@ == date_error(
            date@,
        ),
{
    match parse_date_with(date, iso_pattern()) {
        Some(t) => Ok(t),
        None => {
            let mut e: Vec<char> = Vec::new();
            push_str(&mut e, "'");
            push_str(&mut e, date);
            push_str(&mut e, "' is not a YYYY-MM-DD date");
            Err(to_string(&e))
        },
    }
}

/// The date format a locale (already lowercased) writes by convention.
pub fn date_format_for_locale(locale: &str) -> (r: &str)
    ensures
        r@ == spec_date_format_for_locale(locale@),
{
    let l = chars_of(locale);
    if starts_with_str(&l, "sv") || starts_with_str(&l, "lt") || starts_with_str(&l, "hu")
        || starts_with_str(&l, "ja") || starts_with_str(&l, "zh") || starts_with_str(&l, "ko") {
        return "YYYY-MM-DD";
    }
    if starts_with_str(&l, "en-us") || starts_with_str(&l, "en_us") {
        return "MM/DD/YYYY";
    }
    DEFAULT_DATE_FORMAT
}

/// The clock a locale (already lowercased) reads by convention.
pub fn time_format_for_locale(locale: &str) -> (r: &str)
    ensures
        r@ == spec_time_format_for_locale(locale@),
{
    let l = chars_of(locale);
    if starts_with_str(&l, "en-us") || starts_with_str(&l, "en_us") || starts_with_str(
        &l,
        "en-ca",
    ) || starts_with_str(&l, "en_ca") || starts_with_str(&l, "en-au") || starts_with_str(
        &l,
        "en_au",
    ) || starts_with_str(&l, "en-nz") || starts_with_str(&l, "en_nz") || starts_with_str(
        &l,
        "en-ph",
    ) || starts_with_str(&l, "en_ph") {
        return "12h";
    }
    DEFAULT_TIME_FORMAT
}

/// What a fresh install should use: the convention of the operating system's
/// locale.
pub fn locale_date_format() -> (r: String)
    ensures
        exists|l: Seq<char>| r@ == spec_date_format_for_locale(lowercase(l)),
{
    let loc = match system_locale() {
        Some(s) => s,
        None => String::new(),
    };
    let low = to_lowercase(loc.as_str());
    let f = date_format_for_locale(low.as_str());
    f.to_string()
}

/// The clock the operating system's locale reads by convention.
pub fn locale_time_format() -> (r: String)
    ensures
        exists|l: Seq<char>| r@ == spec_time_format_for_locale(lowercase(l)),
{
    let loc = match system_locale() {
        Some(s) => s,
        None => String::new(),
    };
    let low = to_lowercase(loc.as_str());
    let f = time_format_for_locale(low.as_str());
    f.to_string()
}

} // verus!
