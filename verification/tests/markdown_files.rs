use daybook_core::entity::upsert_entity_day;
use daybook_core::entries::task_state;
use daybook_core::history::{
    append_raw, append_raw_item, captured_stamp, day_dates, day_entry, inbox_file_body,
    list_history, parse_inbox_file, preview_of, read_history_item, RawDay,
};
use daybook_core::ideas::append_idea;
use daybook_core::personal::{clear_personal_item, upsert_personal_item};
use daybook_core::tasks::{append_task, format_task_line, toggle_task_line};

fn state_of(pairs: &[(String, bool)], id: &str) -> Option<bool> {
    pairs.iter().rev().find(|(k, _)| k == id).map(|(_, d)| *d)
}

#[test]
fn a_task_written_as_markdown_is_matched_back_to_its_record() {
    let text = append_task(
        "# Tasks\n\n",
        "2026-08-06",
        "work",
        "Write tests for the routing",
        Some("2026-08-12"),
        "DD/MM/YYYY",
        "cap-1-e0",
        Some("projects/daybook"),
    )
    .unwrap();
    // The project link is visible markdown, so it works in Obsidian too.
    assert!(text.contains("[[projects/daybook]]"), "got: {text}");
    assert!(text.contains("due 12/08/2026"), "got: {text}");

    let state = task_state(&text);
    assert_eq!(state_of(&state, "cap-1-e0"), Some(false));

    // Ticking the box by hand is what flips the state.
    let ticked = text.replace("- [ ]", "- [x]");
    assert_eq!(state_of(&task_state(&ticked), "cap-1-e0"), Some(true));
}

#[test]
fn task_lines_have_one_shape() {
    let line = format_task_line(
        false,
        "cap-1-e0",
        "work",
        "  Write tests  ",
        "2026-08-06",
        Some("2026-08-12"),
        Some("projects/daybook"),
        "DD/MM/YYYY",
    );
    assert_eq!(
        line,
        "- [ ] <!-- e:cap-1-e0 --> (work) Write tests — captured 06/08/2026 · due 12/08/2026 · [[projects/daybook]]"
    );
    let bare = format_task_line(true, "x", "  ", "t", "2026-08-06", Some(" "), None, "YYYY-MM-DD");
    assert_eq!(bare, "- [x] <!-- e:x --> t — captured 2026-08-06");
}

#[test]
fn appending_a_task_refuses_a_bad_date_and_ends_the_file_first() {
    let err = append_task("# Tasks", "06/08/2026", "work", "t", None, "DD/MM/YYYY", "a", None)
        .unwrap_err();
    assert_eq!(err, "'06/08/2026' is not a YYYY-MM-DD date");
    let err = append_task("# Tasks", "2026-08-06", "work", "t", Some("soon"), "DD/MM/YYYY", "a", None)
        .unwrap_err();
    assert_eq!(err, "'soon' is not a YYYY-MM-DD date");
    let ok = append_task("# Tasks", "2026-08-06", "", "t", None, "DD/MM/YYYY", "a", None).unwrap();
    assert_eq!(ok, "# Tasks\n- [ ] <!-- e:a --> t — captured 06/08/2026\n");
}

#[test]
fn toggling_flips_one_checkbox_and_keeps_the_rest() {
    let text = "# Tasks\n\n- [ ] one\n- [x] two\n";
    assert_eq!(toggle_task_line(text, 3).unwrap(), "# Tasks\n\n- [x] one\n- [x] two\n");
    assert_eq!(toggle_task_line(text, 4).unwrap(), "# Tasks\n\n- [ ] one\n- [ ] two\n");
    assert_eq!(toggle_task_line("- [X] big", 1).unwrap(), "- [ ] big");
    assert_eq!(toggle_task_line(text, 0).unwrap_err(), "No task on line 0");
    assert_eq!(toggle_task_line(text, 9).unwrap_err(), "No task on line 9");
    assert_eq!(toggle_task_line(text, 1).unwrap_err(), "Line 1 is not a task checkbox");
}

#[test]
fn ideas_go_under_their_date_or_a_new_heading() {
    let first = append_idea(
        "# Ideas\n\n",
        "2026-08-06",
        "09:30",
        "work",
        "Ship a CLI",
        "DD/MM/YYYY",
        "24h",
        "cap-1-e0",
        Some("projects/daybook"),
    )
    .unwrap();
    assert_eq!(
        first,
        "# Ideas\n\n\n## 06/08/2026\n\n- **09:30** <!-- e:cap-1-e0 --> (work) Ship a CLI · [[projects/daybook]]\n"
    );
    let second = append_idea(
        &first, "2026-08-06", "10:00", "personal", "Another", "DD/MM/YYYY", "24h", "cap-2-e0", None,
    )
    .unwrap();
    assert_eq!(
        second,
        "# Ideas\n\n\n## 06/08/2026\n\n- **10:00** <!-- e:cap-2-e0 --> (personal) Another\n\n- **09:30** <!-- e:cap-1-e0 --> (work) Ship a CLI · [[projects/daybook]]\n"
    );
    assert!(append_idea("", "bad", "", "", "", "", "", "", None).is_err());
}

#[test]
fn entity_pages_keep_one_section_per_capture_and_date() {
    let page = upsert_entity_day(
        "", "project", "Daybook", "Daybook", "work", "2026-08-06", "cap-1", "First body", "DD/MM/YYYY",
    )
    .unwrap();
    assert_eq!(
        page,
        "---\nslug: daybook\nname: Daybook\ntype: project\nscope: work\n---\n\n# Daybook\n\n## Overview\n\nStanding view of recent activity. Full dated log is below.\n\n## 06/08/2026\n\n### `cap-1`\n\nFirst body\n\n"
    );
    // A second capture the same day sits beside the first; a later date
    // goes on top.
    let page = upsert_entity_day(
        &page, "project", "daybook", "Daybook", "work", "2026-08-06", "cap-2", "Second", "DD/MM/YYYY",
    )
    .unwrap();
    let page = upsert_entity_day(
        &page, "project", "daybook", "Daybook", "work", "2026-08-07", "cap-3", "Third", "DD/MM/YYYY",
    )
    .unwrap();
    assert!(page.find("## 07/08/2026").unwrap() < page.find("## 06/08/2026").unwrap());
    assert!(page.contains("### `cap-1`") && page.contains("### `cap-2`"));
    // Filing the same capture again replaces only its own subsection.
    let page = upsert_entity_day(
        &page, "project", "daybook", "Daybook", "work", "2026-08-06", "cap-1", "Revised", "DD/MM/YYYY",
    )
    .unwrap();
    assert_eq!(page.matches("### `cap-1`").count(), 1);
    assert!(page.contains("Revised") && !page.contains("First body"));
    assert!(page.contains("Second") && page.contains("Third"));
    // The Overview is preserved as written.
    let with_overview = page.replace(
        "Standing view of recent activity. Full dated log is below.",
        "My own summary.",
    );
    let again = upsert_entity_day(
        &with_overview, "area", "daybook", "Daybook", "work", "2026-08-06", "cap-9", "x", "DD/MM/YYYY",
    )
    .unwrap();
    assert!(again.contains("## Overview\n\nMy own summary.\n\n"));
    assert!(again.contains("type: area"));
    assert_eq!(
        upsert_entity_day("", "project", "x", "X", "work", "nope", "c", "b", "DD/MM/YYYY").unwrap_err(),
        "'nope' is not a YYYY-MM-DD date"
    );
}

#[test]
fn personal_entries_are_dated_ordered_and_cleared() {
    let page = upsert_personal_item(
        "", "2026-08-06", "cap-1", "11:00", "Dentist", "tasks", "Book a cleaning", "DD/MM/YYYY", "24h",
    )
    .unwrap();
    let page = upsert_personal_item(
        &page, "2026-08-06", "cap-2", "09:30", "", "", "Walked", "DD/MM/YYYY", "24h",
    )
    .unwrap();
    let first = page.find("### 09:30 · `cap-2` · Entry · note").unwrap();
    let second = page.find("### 11:00 · `cap-1` · Dentist · tasks").unwrap();
    assert!(first < second, "got: {page}");
    assert!(page.starts_with("# Personal\n\n"));
    assert!(page.contains("## Overview\n\nStanding view of personal life threads. Dated log is below.\n\n"));

    let cleared = clear_personal_item(&page, "cap-1", "DD/MM/YYYY").unwrap();
    assert!(!cleared.contains("cap-1"));
    assert!(cleared.contains("`cap-2`"));
    assert!(clear_personal_item(&cleared, "cap-1", "DD/MM/YYYY").is_none());
    let emptied = clear_personal_item(&cleared, "cap-2", "DD/MM/YYYY").unwrap();
    assert!(!emptied.contains("## 06/08/2026"));
}

#[test]
fn inbox_files_are_read_by_their_stem() {
    let item = parse_inbox_file(
        "2026-08-06-1432-a3f1",
        "---\ncaptured: 2026-08-06T14:32:00\n---\n\n  Call the bank  \n",
    );
    assert_eq!(item.date, "2026-08-06");
    assert_eq!(item.time, "14:32");
    assert_eq!(item.text, "Call the bank");
    assert_eq!(item.chars, 13);
    let odd = parse_inbox_file("short", "no frontmatter");
    assert_eq!(odd.date, "");
    assert_eq!(odd.time, "");
    assert_eq!(odd.text, "no frontmatter");

    let body = inbox_file_body("2026-08-06T14:32:00", "  hello ");
    assert_eq!(body, "---\ncaptured: 2026-08-06T14:32:00\n---\n\nhello\n");
    assert_eq!(captured_stamp(&body).as_deref(), Some("2026-08-06T14:32:00"));
    assert_eq!(captured_stamp("nothing"), None);
}

#[test]
fn previews_skip_frontmatter_and_headings() {
    let text: Vec<char> = "---\ndate: 2026-08-06\n---\n\n# Title\n\nFirst real line\n".chars().collect();
    assert_eq!(preview_of(&text), "First real line");
    let long: Vec<char> = "x".repeat(200).chars().collect();
    let p = preview_of(&long);
    assert_eq!(p.chars().count(), 161);
    assert!(p.ends_with('…'));
    let e = day_entry("2026-08-06", "raw text", "");
    assert!(e.has_raw && !e.has_note);
    assert_eq!(e.raw_chars, 8);
    assert_eq!(e.preview, "raw text");
}

#[test]
fn raw_blocks_and_history_read_back() {
    let head = append_raw_item("2026-08-06", Some("cap-1"), " First ", "DD/MM/YYYY", "24h", "09:30", true)
        .unwrap();
    assert_eq!(head, "# 06/08/2026 (raw)\n\n## 09:30 · `cap-1`\n\nFirst\n\n");
    let more = append_raw("2026-08-06", "Second", "1105", false).unwrap();
    assert_eq!(more, "## 11:05\n\nSecond\n\n");
    assert!(append_raw("x", "t", "09:00", true).is_err());

    let text = format!("{head}{more}");
    assert_eq!(read_history_item(&text, "cap-1"), "## 09:30 · `cap-1`\n\nFirst\n\n");
    assert_eq!(read_history_item(&text, " "), text);
    assert_eq!(read_history_item(&text, "nope"), text);

    let days = vec![
        RawDay { date: "2026-08-06".into(), text: text.clone(), has_day_note: true },
        RawDay { date: "2026-08-05".into(), text: "## 08:00 · `old`\n\nOld one\n".into(), has_day_note: false },
    ];
    let items = list_history(days, 10);
    let ids: Vec<&str> = items.iter().map(|h| h.id.as_str()).collect();
    assert_eq!(ids, vec!["", "cap-1", "old"]);
    assert_eq!(items[1].preview, "First");
    assert!(items[1].has_day_note);

    let one = list_history(
        vec![RawDay { date: "2026-08-06".into(), text, has_day_note: false }],
        1,
    );
    assert_eq!(one.len(), 1);
    assert_eq!(one[0].time, "11:05");
}

#[test]
fn day_dates_are_valid_distinct_and_newest_first() {
    let stems = vec![
        "2026-08-05".to_string(),
        "notes".to_string(),
        "2026-08-07".to_string(),
        "2026-08-05".to_string(),
    ];
    assert_eq!(day_dates(stems), vec!["2026-08-07".to_string(), "2026-08-05".to_string()]);
}

#[test]
fn an_archived_capture_reads_back_verbatim() {
    let existing = "# 06/08/2026 (raw)\n\n## 09:30 · `cap-1`\n\nFirst\n\n";
    let block = append_raw_item("2026-08-06", Some("cap-2"), "\n  Second line one\nline two  \n", "DD/MM/YYYY", "24h", "11:05", false)
        .unwrap();
    assert_eq!(block, "## 11:05 · `cap-2`\n\nSecond line one\nline two\n\n");
    let text = format!("{existing}{block}");
    assert_eq!(read_history_item(&text, "cap-2"), block);
}

#[test]
fn an_edited_capture_keeps_its_stamp_and_text() {
    let body = inbox_file_body("2026-08-06T09:30:00", "  edited text, second go \n");
    assert_eq!(captured_stamp(&body).as_deref(), Some("2026-08-06T09:30:00"));
    let item = parse_inbox_file("2026-08-06-0930-a3f1", &body);
    assert_eq!(item.text, "edited text, second go");
    assert_eq!(item.time, "09:30");
}

#[test]
fn a_hand_reordered_page_comes_back_newest_first() {
    let page = "---\nslug: daybook\nname: Daybook\ntype: project\nscope: work\n---\n\n# Daybook\n\n## Overview\n\nMine.\n\n## 01/08/2026\n\n### `cap-1`\n\nOld\n\n## 09/08/2026\n\n### `cap-2`\n\nNew\n\n";
    let next = upsert_entity_day(
        page, "project", "daybook", "Daybook", "work", "2026-08-05", "cap-3", "Middle", "DD/MM/YYYY",
    )
    .unwrap();
    let a = next.find("## 09/08/2026").unwrap();
    let b = next.find("## 05/08/2026").unwrap();
    let c = next.find("## 01/08/2026").unwrap();
    assert!(a < b && b < c, "got: {next}");
}

#[test]
fn history_is_newest_first_by_time_of_day() {
    let day = |date: &str, text: &str| RawDay { date: date.into(), text: text.into(), has_day_note: false };
    let days = vec![
        day("2026-08-05", "## 11:00 PM · `late`\n\nLate one\n"),
        day("notes", "## 10:00 AM · `x`\n\nNot a day\n"),
        day(
            "2026-08-06",
            "# 06/08/2026 (raw)\n\n## 9:30 AM · `a`\n\nA\n\n## 11:00 AM · `b`\n\nB\n\n## 1:15 PM · `c`\n\nC\n",
        ),
    ];
    let items = list_history(days, 10);
    let ids: Vec<&str> = items.iter().map(|h| h.id.as_str()).collect();
    assert_eq!(ids, vec!["c", "b", "a", "late"]);
}

#[test]
fn any_inbox_stem_is_taken() {
    let item = parse_inbox_file("2026-08-06-0é30-x", "---\ncaptured: t\n---\n\nHello\n");
    assert_eq!(item.time, "");
    assert_eq!(item.text, "Hello");
    assert_eq!(item.date, "2026-08-06");
}

#[test]
fn refiling_leaves_other_subsections_byte_for_byte() {
    let page = upsert_entity_day(
        "", "project", "daybook", "Daybook", "work", "2026-08-06", "cap-1", "First body", "DD/MM/YYYY",
    )
    .unwrap();
    let page = upsert_entity_day(
        &page, "project", "daybook", "Daybook", "work", "2026-08-06", "cap-2", "Second", "DD/MM/YYYY",
    )
    .unwrap();
    let again = upsert_entity_day(
        &page, "project", "daybook", "Daybook", "work", "2026-08-06", "cap-2", "Second", "DD/MM/YYYY",
    )
    .unwrap();
    assert_eq!(again, page);
    assert!(page.contains("### `cap-1`\n\nFirst body\n\n### `cap-2`\n\nSecond\n\n"), "got: {page}");
}
