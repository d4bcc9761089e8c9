use daybook_core::backfill::{rebuild, DayFile, PageFile, RebuildOutcome};
use daybook_core::entries::{replace_item, task_state, EntryRecord, SOURCE_RECOVERED, SOURCE_TRIAGE};

/// Exactly what a triage pass renders for one capture, wrapped in a page.
const PROJECT_PAGE: &str = "\
---
slug: daybook
---

# Daybook

## Overview

Hand-written standing summary that must not become an entry.

## 06/08/2026

### `cap-1`

**Inbox routing**

**Accomplished**

- Wired inbox triage

**Decided**

- Kept raw append-only, because rebuilds have to be safe

**Open**

- Decide on the index format

Got the inbox layer wiring so captures split into discrete entries.

[[days/2026-08-06]]
";

const TODAY: &str = "2026-08-13";

fn page() -> Vec<PageFile> {
    vec![PageFile { kind: "project".into(), slug: "daybook".into(), text: PROJECT_PAGE.into() }]
}

fn run(
    all: Vec<EntryRecord>,
    pages: &[PageFile],
    tasks: Option<&str>,
    ideas: Option<&str>,
    days: &[DayFile],
) -> RebuildOutcome {
    rebuild(all, &Vec::new(), pages, tasks, ideas, days, "DD/MM/YYYY", TODAY)
}

fn state_of(pairs: &[(String, bool)], id: &str) -> Option<bool> {
    pairs.iter().rev().find(|(k, _)| k == id).map(|(_, d)| *d)
}

#[test]
fn recovers_structure_from_a_rendered_project_page() {
    let out = run(Vec::new(), &page(), None, None, &[]);
    assert_eq!(out.report.recovered, 1);

    let r = &out.records[0];
    assert_eq!(r.item_id, "cap-1");
    assert_eq!(r.kind, "project");
    assert_eq!(r.slug, "daybook");
    assert_eq!(r.date, "2026-08-06");
    assert_eq!(r.title, "Inbox routing");
    assert_eq!(r.accomplished, vec!["Wired inbox triage"]);
    assert_eq!(r.decisions, vec!["Kept raw append-only, because rebuilds have to be safe"]);
    assert_eq!(r.open, vec!["Decide on the index format"]);
    assert!(r.body.contains("Got the inbox layer wiring"));
    // The trailing day link is noise, not body.
    assert!(!r.body.contains("[[days/"));
    assert_eq!(r.source, SOURCE_RECOVERED);
}

#[test]
fn hand_written_overview_never_becomes_an_entry() {
    let out = run(Vec::new(), &page(), None, None, &[]);
    assert_eq!(out.records.len(), 1);
    assert!(!out.records.iter().any(|r| r.body.contains("Hand-written standing")));
}

#[test]
fn rebuilding_twice_is_idempotent() {
    let tasks = "# Tasks\n\n- [ ] (work) Write tests — captured 06/08/2026\n";
    let first = run(Vec::new(), &page(), Some(tasks), None, &[]);
    let after_first = first.records.len();
    let tasks_after = first.tasks_text.clone().unwrap_or_else(|| tasks.to_string());

    let second = run(first.records.clone(), &page(), Some(&tasks_after), None, &[]);
    assert_eq!(second.records.len(), after_first);
    assert_eq!(first.report.recovered, second.report.recovered);
    // The marker is written once; the second pass finds it already there.
    assert_eq!(first.report.tasks_marked, 1);
    assert_eq!(second.report.tasks_marked, 0);
    assert!(second.tasks_text.is_none());
}

#[test]
fn capture_time_records_are_never_disturbed() {
    // A real triage record for the same capture the page came from.
    let real = EntryRecord {
        id: "cap-1-e0".into(),
        item_id: "cap-1".into(),
        date: "2026-08-06".into(),
        time: "09:30".into(),
        scope: "work".into(),
        kind: "project".into(),
        slug: "daybook".into(),
        name: "Daybook".into(),
        title: "The real one".into(),
        body: String::new(),
        accomplished: vec![],
        decisions: vec![],
        open: vec![],
        due: None,
        source: SOURCE_TRIAGE.into(),
    };
    let all = replace_item(Vec::new(), "cap-1", vec![real]);

    let out = run(all, &page(), None, None, &[]);
    // Nothing recovered: that capture is already covered by a real record.
    assert_eq!(out.report.recovered, 0);
    assert_eq!(out.report.kept, 1);
    assert_eq!(out.records.len(), 1);
    assert_eq!(out.records[0].title, "The real one");
}

#[test]
fn legacy_tasks_get_markers_and_become_trackable() {
    let tasks = "# Tasks\n\n\
         - [ ] (work) Write tests — captured 06/08/2026 · due 12/08/2026 · [[projects/daybook]]\n\
         - [x] (personal) Book dentist — captured 01/08/2026\n";
    let out = run(Vec::new(), &[], Some(tasks), None, &[]);
    assert_eq!(out.report.tasks_marked, 2);

    let text = out.tasks_text.clone().unwrap();
    assert!(text.contains("<!-- e:recovered-task-0 -->"), "got: {text}");
    // The original wording survives the migration.
    assert!(text.contains("Write tests — captured 06/08/2026"));

    let first = out.records.iter().find(|r| r.id == "recovered-task-0").unwrap();
    assert_eq!(first.kind, "task");
    assert_eq!(first.slug, "daybook");
    assert_eq!(first.due.as_deref(), Some("2026-08-12"));
    assert_eq!(first.date, "2026-08-06");
    assert_eq!(first.title, "Write tests");

    // The ticked one is read back as done through its new marker.
    let done = task_state(&text);
    assert_eq!(state_of(&done, "recovered-task-1"), Some(true));
    assert_eq!(state_of(&done, "recovered-task-0"), Some(false));
}

#[test]
fn ideas_and_day_notes_are_recovered() {
    let ideas = "# Ideas\n\n## 06/08/2026\n\n- **09:30** (work) Ship a CLI · [[projects/daybook]]\n";
    let days = vec![DayFile {
        date: "2026-08-06".into(),
        text: "# 06/08/2026\n\n## 11:00 · `cap-9` · A passing thought\n\nBody.\n".into(),
    }];
    let out = run(Vec::new(), &[], None, Some(ideas), &days);

    let idea = out.records.iter().find(|r| r.kind == "idea").unwrap();
    assert_eq!(idea.slug, "daybook");
    assert_eq!(idea.title, "Ship a CLI");
    assert_eq!(idea.time, "09:30");

    let note = out.records.iter().find(|r| r.kind == "note").unwrap();
    assert_eq!(note.item_id, "cap-9");
    assert_eq!(note.title, "A passing thought");
}

#[test]
fn the_rebuilt_index_is_sorted_by_date() {
    let ideas = "# Ideas\n\n## 09/08/2026\n\n- **08:00** (work) Later idea\n";
    let out = run(Vec::new(), &page(), None, Some(ideas), &[]);
    assert_eq!(out.records.len(), 2);
    assert_eq!(out.records[0].date, "2026-08-06");
    assert_eq!(out.records[1].date, "2026-08-09");
}
