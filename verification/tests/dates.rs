use daybook_core::datetime::{
    date_format_for_locale, format_date, format_time, normalize_date_format,
    normalize_time_format, parse_date_to_iso, time_format_for_locale, valid_date,
    DEFAULT_DATE_FORMAT, DEFAULT_TIME_FORMAT,
};

#[test]
fn formats_are_normalized_to_the_known_ones() {
    assert_eq!(normalize_date_format(" MM/DD/YYYY "), "MM/DD/YYYY");
    assert_eq!(normalize_date_format("YYYY-MM-DD"), "YYYY-MM-DD");
    assert_eq!(normalize_date_format("dd.mm.yy"), DEFAULT_DATE_FORMAT);
    assert_eq!(normalize_time_format(" AMPM "), "12h");
    assert_eq!(normalize_time_format("12"), "12h");
    assert_eq!(normalize_time_format("24"), DEFAULT_TIME_FORMAT);
}

#[test]
fn iso_dates_are_shown_in_the_chosen_format() {
    assert_eq!(format_date("2026-08-06", "DD/MM/YYYY"), "06/08/2026");
    assert_eq!(format_date(" 2026-08-06 ", "MM/DD/YYYY"), "08/06/2026");
    assert_eq!(format_date("2026-08-06", "YYYY-MM-DD"), "2026-08-06");
    // Anything that is not a date comes back as it was.
    assert_eq!(format_date("soon", "DD/MM/YYYY"), "soon");
    assert_eq!(format_date("2026-02-30", "DD/MM/YYYY"), "2026-02-30");
}

#[test]
fn times_are_shown_on_the_chosen_clock() {
    assert_eq!(format_time("14:30", "24h"), "14:30");
    assert_eq!(format_time("1430", "24h"), "14:30");
    assert_eq!(format_time("14:30", "12h"), "2:30 PM");
    assert_eq!(format_time("09:05", "12h"), "9:05 AM");
    assert_eq!(format_time("later", "12h"), "later");
}

#[test]
fn displayed_dates_are_read_back_as_iso() {
    assert_eq!(parse_date_to_iso("06/08/2026", "DD/MM/YYYY").as_deref(), Some("2026-08-06"));
    assert_eq!(parse_date_to_iso("08/06/2026", "MM/DD/YYYY").as_deref(), Some("2026-08-06"));
    assert_eq!(parse_date_to_iso(" 2026-08-06 ", "DD/MM/YYYY").as_deref(), Some("2026-08-06"));
    assert_eq!(parse_date_to_iso("not a date", "DD/MM/YYYY"), None);
}

#[test]
fn a_formatted_date_reads_back_to_itself() {
    for fmt in ["DD/MM/YYYY", "MM/DD/YYYY", "YYYY-MM-DD"] {
        let shown = format_date("2026-12-31", fmt);
        assert_eq!(parse_date_to_iso(&shown, fmt).as_deref(), Some("2026-12-31"));
    }
}

#[test]
fn only_calendar_dates_are_valid() {
    assert_eq!(valid_date("2026-08-06"), Ok((2026, 8, 6)));
    assert_eq!(valid_date("2024-02-29"), Ok((2024, 2, 29)));
    assert!(valid_date("2025-02-29").is_err());
    assert_eq!(valid_date("06/08/2026").unwrap_err(), "'06/08/2026' is not a YYYY-MM-DD date");
}

#[test]
fn locales_pick_their_conventions() {
    assert_eq!(date_format_for_locale("sv-se"), "YYYY-MM-DD");
    assert_eq!(date_format_for_locale("ja"), "YYYY-MM-DD");
    assert_eq!(date_format_for_locale("en-us"), "MM/DD/YYYY");
    assert_eq!(date_format_for_locale("en_us"), "MM/DD/YYYY");
    assert_eq!(date_format_for_locale("en-gb"), "DD/MM/YYYY");
    assert_eq!(time_format_for_locale("en-au"), "12h");
    assert_eq!(time_format_for_locale("en-gb"), "24h");
    assert_eq!(time_format_for_locale("de-de"), "24h");
}
