use daybook_core::daynote::{ensure_day, splice_day_item, upsert_day_item};
use daybook_core::overview::{extract_overview_body, replace_overview_section};

const HAND_EDITED: &str = "\
---
date: 2026-08-06
type: daily
---

# 06/08/2026

## At a glance

- <!-- item:cap-1 --> Shipped the splice fix
- A bullet I typed myself

## Morning pages

Freeform prose I wrote by hand, outside any item section.

## 09:30 · `cap-1` · Shipped the splice fix

Body of the first capture.

---

Raw: [[raw/2026-08-06]]
";

fn splice(existing: &str, id: &str, glance: &str, section: &str) -> String {
    splice_day_item(existing, id, glance, section, "2026-08-06", "06/08/2026")
}

#[test]
fn new_item_preserves_hand_written_content() {
    let out = splice(
        HAND_EDITED,
        "cap-2",
        "- <!-- item:cap-2 --> Booked the dentist\n",
        "## 11:00 · `cap-2` · Booked the dentist\n\nBody of the second capture.\n\n",
    );

    // Everything the user wrote by hand survives.
    assert!(out.contains("- A bullet I typed myself"));
    assert!(out.contains("## Morning pages"));
    assert!(out.contains("Freeform prose I wrote by hand, outside any item section."));
    // The untouched item keeps its glance line and section.
    assert!(out.contains("- <!-- item:cap-1 --> Shipped the splice fix"));
    assert!(out.contains("## 09:30 · `cap-1` · Shipped the splice fix"));
    assert!(out.contains("Body of the first capture."));
    // The new item landed.
    assert!(out.contains("- <!-- item:cap-2 --> Booked the dentist"));
    assert!(out.contains("## 11:00 · `cap-2` · Booked the dentist"));
    // Footer stays single and last.
    assert_eq!(out.matches("Raw: [[raw/").count(), 1);
    assert!(out.trim_end().ends_with("Raw: [[raw/2026-08-06]]"));
}

#[test]
fn reprocessing_an_item_replaces_it_without_duplicating() {
    let out = splice(
        HAND_EDITED,
        "cap-1",
        "- <!-- item:cap-1 --> Shipped the splice fix (revised)\n",
        "## 09:30 · `cap-1` · Shipped the splice fix\n\nRevised body.\n\n",
    );

    assert_eq!(out.matches("<!-- item:cap-1 -->").count(), 1);
    assert_eq!(out.matches("· `cap-1` ·").count(), 1);
    assert!(out.contains("Revised body."));
    assert!(!out.contains("Body of the first capture."));
    // Hand-written content is still untouched.
    assert!(out.contains("- A bullet I typed myself"));
    assert!(out.contains("## Morning pages"));
    assert!(out.contains("Freeform prose I wrote by hand, outside any item section."));
}

#[test]
fn refiling_leaves_exactly_the_new_glance_lines_in_order() {
    let once = splice(
        HAND_EDITED,
        "cap-1",
        "- <!-- item:cap-1 --> first\n\n- <!-- item:cap-1 --> second\n",
        "## 09:30 · `cap-1` · Shipped\n\nOne.\n",
    );
    let twice = splice(
        &once,
        "cap-1",
        "- <!-- item:cap-1 --> third\n- <!-- item:cap-1 --> fourth\n",
        "## 09:30 · `cap-1` · Shipped\n\nTwo.\n",
    );
    let glance: Vec<&str> = twice.lines().filter(|l| l.trim_start().starts_with("- <!-- item:cap-1 -->")).collect();
    assert_eq!(glance, vec!["- <!-- item:cap-1 --> third", "- <!-- item:cap-1 --> fourth"]);
    assert_eq!(twice.lines().filter(|l| l.contains("· `cap-1` ·")).count(), 1);
    assert!(twice.contains("Two.") && !twice.contains("One."));
}

#[test]
fn filing_keeps_the_other_lines_in_their_order() {
    let out = splice(
        HAND_EDITED,
        "cap-2",
        "- <!-- item:cap-2 --> Booked the dentist\n",
        "## 11:00 · `cap-2` · Booked the dentist\n\nBody.\n",
    );
    let kept = [
        "# 06/08/2026",
        "## At a glance",
        "- <!-- item:cap-1 --> Shipped the splice fix",
        "- A bullet I typed myself",
        "## Morning pages",
        "Freeform prose I wrote by hand, outside any item section.",
        "## 09:30 · `cap-1` · Shipped the splice fix",
        "Body of the first capture.",
        "Raw: [[raw/2026-08-06]]",
    ];
    let mut at = 0;
    for line in out.lines() {
        if at < kept.len() && line == kept[at] {
            at += 1;
        }
    }
    assert_eq!(at, kept.len());
}

#[test]
fn the_footer_stays_single_and_last_across_refiles() {
    let day = ensure_day("2026-08-06", "DD/MM/YYYY", None).unwrap();
    let mut page = day;
    for body in ["One.", "Two.", "Three."] {
        page = splice(
            &page,
            "cap-9",
            "- <!-- item:cap-9 --> Note\n",
            &format!("## 09:30 · `cap-9` · Note\n\n{}\n", body),
        );
        assert_eq!(page.lines().filter(|l| l.trim().starts_with("Raw: [[raw/")).count(), 1);
        assert_eq!(page.trim_end().lines().last().unwrap(), "Raw: [[raw/2026-08-06]]");
        assert!(page.contains(body));
    }
}

#[test]
fn overview_body_is_extracted_for_preservation() {
    let page = "\
# Daybook

## Overview

My own standing summary.
Second line.

## 06/08/2026

- something dated
";
    assert_eq!(
        extract_overview_body(page).as_deref(),
        Some("My own standing summary.\nSecond line.")
    );
    assert_eq!(extract_overview_body("# No overview here\n"), None);
}

#[test]
fn splicing_into_a_page_without_title_or_footer_adds_both() {
    let out = splice("---\ndate: 2026-08-06\n---\nsome text\n", "cap-3", "- <!-- item:cap-3 --> x\n", "## 10:00 · `cap-3` · x\n\nbody\n\n");
    assert_eq!(
        out,
        "---\ndate: 2026-08-06\n---\n# 06/08/2026\n\n## At a glance\n\n- <!-- item:cap-3 --> x\nsome text\n\n## 10:00 · `cap-3` · x\n\nbody\n\n---\n\nRaw: [[raw/2026-08-06]]\n"
    );
    let again = splice(&out, "cap-3", "- <!-- item:cap-3 --> x\n", "## 10:00 · `cap-3` · x\n\nbody\n\n");
    assert_eq!(again, out);
}

#[test]
fn a_first_capture_creates_the_whole_day_note() {
    let out = upsert_day_item(
        "",
        "2026-08-06",
        "cap-1",
        "0930",
        "  Shipped it  ",
        &["Shipped the fix".to_string(), "  ".to_string()],
        "\nBody.\n",
        "DD/MM/YYYY",
        "24h",
    )
    .unwrap();
    assert_eq!(
        out,
        "---\ndate: 2026-08-06\ntype: daily\n---\n\n# 06/08/2026\n\n## At a glance\n\n- <!-- item:cap-1 --> Shipped the fix\n\n## 09:30 · `cap-1` · Shipped it\n\nBody.\n\n---\n\nRaw: [[raw/2026-08-06]]\n"
    );
}

#[test]
fn filing_the_same_capture_twice_changes_nothing() {
    let bullets = ["Shipped the fix".to_string(), "Wrote it up".to_string()];
    let once = upsert_day_item("", "2026-08-06", "cap-1", "0930", "Shipped it", &bullets, "Body.\n\nMore.", "DD/MM/YYYY", "24h").unwrap();
    let twice = upsert_day_item(&once, "2026-08-06", "cap-1", "0930", "Shipped it", &bullets, "Body.\n\nMore.", "DD/MM/YYYY", "24h").unwrap();
    assert_eq!(twice, once);
    let bare = upsert_day_item("", "2026-08-06", "cap-2", "14:05", "", &[], "", "DD/MM/YYYY", "12h").unwrap();
    let again = upsert_day_item(&bare, "2026-08-06", "cap-2", "14:05", "", &[], "", "DD/MM/YYYY", "12h").unwrap();
    assert_eq!(again, bare);
    assert!(again.contains("- <!-- item:cap-2 --> Entry\n"));
}

#[test]
fn refiling_into_a_hand_edited_note_settles_at_once() {
    let args = |page: &str| {
        upsert_day_item(page, "2026-08-06", "cap-3", "11:00", "Dentist", &["Booked".to_string()], "Tuesday.", "DD/MM/YYYY", "24h").unwrap()
    };
    let once = args(HAND_EDITED);
    let twice = args(&once);
    assert_eq!(twice, once);
    assert!(twice.contains("Freeform prose I wrote by hand, outside any item section."));
    assert_eq!(twice.lines().filter(|l| l.trim().starts_with("Raw: [[raw/")).count(), 1);
}

#[test]
fn an_untitled_capture_with_no_bullets_is_listed_as_entry() {
    let out = upsert_day_item("", "2026-08-06", "cap-1", "14:05", "", &[], "", "MM/DD/YYYY", "12h").unwrap();
    assert!(out.contains("# 08/06/2026"));
    assert!(out.contains("- <!-- item:cap-1 --> Entry\n"));
    assert!(out.contains("## 2:05 PM · `cap-1` · Entry\n"));
}

#[test]
fn a_bad_date_is_refused_with_its_message() {
    let e = upsert_day_item("", "06/08/2026", "cap-1", "09:30", "t", &[], "", "DD/MM/YYYY", "24h").unwrap_err();
    assert_eq!(e, "'06/08/2026' is not a YYYY-MM-DD date");
}

#[test]
fn an_empty_day_gets_a_scaffold() {
    assert_eq!(
        ensure_day("2026-08-06", "YYYY-MM-DD", None).unwrap(),
        "---\ndate: 2026-08-06\ntype: daily\n---\n\n# 2026-08-06\n\n## At a glance\n\n- _(nothing filed yet)_\n\n---\n\nRaw: [[raw/2026-08-06]]\n"
    );
    assert_eq!(ensure_day("2026-08-06", "YYYY-MM-DD", Some("kept")).unwrap(), "kept");
}

#[test]
fn replacing_the_overview_keeps_the_dated_log() {
    let page = "# Daybook\n\n## Overview\n\nold\n\n## 06/08/2026\n\n- dated\n";
    let out = replace_overview_section(page, "  new standing view \n");
    assert_eq!(out, "# Daybook\n\n## Overview\n\nnew standing view\n\n## 06/08/2026\n\n- dated\n");
    assert_eq!(extract_overview_body(&out).as_deref(), Some("new standing view"));
}

#[test]
fn refreshing_the_overview_again_keeps_the_page_shape() {
    let page = "# Daybook\n\n\n\n## Overview\n\nold\n\n## 06/08/2026\n\n- dated\n";
    let once = replace_overview_section(page, "view");
    assert_eq!(once, "# Daybook\n\n## Overview\n\nview\n\n## 06/08/2026\n\n- dated\n");
    let twice = replace_overview_section(&once, "view");
    assert_eq!(twice, once);
}

#[test]
fn a_crlf_page_reads_its_new_overview_back() {
    let page = "# Daybook\r\n\r\n## Overview\r\n\r\nold\r\n\r\n## 06/08/2026\r\n\r\n- dated\r\n";
    let out = replace_overview_section(page, " fresh view ");
    assert_eq!(extract_overview_body(&out).as_deref(), Some("fresh view"));
    assert!(out.contains("- dated"));
}

#[test]
fn a_missing_overview_goes_under_the_title() {
    let out = replace_overview_section("# Title\n\n\n## 01/01/2026\nx\n", "body");
    assert_eq!(out, "# Title\n\n## Overview\n\nbody\n\n## 01/01/2026\nx\n");
    assert_eq!(replace_overview_section("no title", "b"), "no title\n## Overview\n\nb\n\n");
}
