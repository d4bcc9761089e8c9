use daybook_core::filing::apply_triage;
use daybook_core::history::InboxItem;
use daybook_core::tasks::append_task;
use daybook_core::triage::{RoutedEntry, TriageResult};
use daybook_core::writes::{next_write, WriteStep};

fn entry(scope: &str, kind: &str, slug: &str, title: &str, due: Option<&str>) -> RoutedEntry {
    RoutedEntry {
        scope: scope.into(),
        kind: kind.into(),
        slug: slug.into(),
        name: slug.into(),
        is_new: false,
        title: title.into(),
        body: String::new(),
        accomplished: vec![],
        decisions: vec![],
        open: vec![],
        due: due.map(|d| d.to_string()),
    }
}

fn item() -> InboxItem {
    InboxItem { id: "c1".into(), date: "2026-08-06".into(), time: "09:30".into(), text: "x".into(), chars: 1 }
}

fn name(s: &WriteStep) -> String {
    format!("{s:?}")
}

#[test]
fn the_inbox_file_goes_last() {
    let triage = TriageResult {
        summary: vec![],
        entries: vec![
            entry("work", "task", "", "Book dentist", None),
            entry("personal", "note", "", "Mood", None),
            entry("work", "project", "daybook", "Routing", None),
        ],
        actions: vec![],
    };
    let plan = apply_triage(&item(), &triage, &mut vec![]);
    let mut steps = Vec::new();
    let mut done = 0;
    loop {
        let s = next_write(&plan, done, Ok(()));
        if matches!(s, WriteStep::Finished) {
            break;
        }
        steps.push(name(&s));
        done += 1;
    }
    assert_eq!(
        steps,
        vec![
            "EntryWrite(0)",
            "ClearPersonal",
            "PersonalWrite(0)",
            "EntityWrite(0)",
            "Registry",
            "ArchiveRaw",
            "Records",
            "DayNote",
            "DeleteInbox",
        ]
    );
}

#[test]
fn a_failed_write_stops_before_the_inbox_file_is_removed() {
    let triage = TriageResult {
        summary: vec![],
        entries: vec![entry("work", "task", "", "Book dentist", Some("someday"))],
        actions: vec![],
    };
    let plan = apply_triage(&item(), &triage, &mut vec![]);
    // The task line is the first write, and its due date is refused.
    assert!(matches!(next_write(&plan, 0, Ok(())), WriteStep::EntryWrite(0)));
    let failed = append_task("# Tasks\n\n", "2026-08-06", "work", "Book dentist", Some("someday"), "DD/MM/YYYY", "c1-e0", None)
        .map(|_| ());
    assert!(failed.is_err());
    match next_write(&plan, 1, failed) {
        WriteStep::Stop(e) => assert!(e.contains("someday")),
        other => panic!("not stopped: {other:?}"),
    }
}
