use daybook_core::assistant::{
    appended_reply, captured_reply, created_reply, page_kind, page_owner, page_scope,
    project_list_text, search_results_text,
};
use daybook_core::entries::{EntryRecord, EntryView, SOURCE_TRIAGE};
use daybook_core::projects::{delete_entity, ProjectEntry, ProjectMeta};
use daybook_core::trash::{
    discard_label, page_exists_message, restore, restore_entry, restore_meta, restore_target, sort_trash,
    trash_label, Payload, RestoreError, Restored, TrashItem, ENTRY_EXISTS, INBOX_EXISTS,
};

fn rec(id: &str, date: &str) -> EntryRecord {
    EntryRecord {
        id: id.into(),
        item_id: "cap-1".into(),
        date: date.into(),
        time: "09:30".into(),
        scope: "work".into(),
        kind: "task".into(),
        slug: "daybook".into(),
        name: "Daybook".into(),
        title: "Write tests".into(),
        body: String::new(),
        accomplished: vec![],
        decisions: vec![],
        open: vec!["which runner".into()],
        due: None,
        source: SOURCE_TRIAGE.into(),
    }
}

fn meta(slug: &str) -> ProjectMeta {
    ProjectMeta {
        slug: slug.into(),
        name: slug.into(),
        kind: "project".into(),
        scope: "work".into(),
        status: "active".into(),
        parent: String::new(),
        aliases: vec![],
        description: String::new(),
    }
}

#[test]
fn trash_labels_are_short() {
    let long = "é".repeat(200);
    assert_eq!(trash_label(&long).chars().count(), 120);
    assert_eq!(trash_label("short"), "short");
}

#[test]
fn the_trash_lists_newest_first() {
    let item = |id: &str| TrashItem {
        id: id.into(),
        label: id.into(),
        deleted_at: String::new(),
        payload: Payload::Inbox { id: id.into(), contents: String::new() },
    };
    let sorted = sort_trash(vec![item("20260801-1"), item("20260806-1"), item("20260803-1")]);
    let ids: Vec<&str> = sorted.iter().map(|t| t.id.as_str()).collect();
    assert_eq!(ids, vec!["20260806-1", "20260803-1", "20260801-1"]);
}

#[test]
fn a_restored_entry_goes_back_in_order_unless_it_exists() {
    let all = vec![rec("a-e0", "2026-08-01"), rec("c-e0", "2026-08-09")];
    let back = restore_entry(all.clone(), rec("b-e0", "2026-08-05")).unwrap();
    let ids: Vec<&str> = back.iter().map(|r| r.id.as_str()).collect();
    assert_eq!(ids, vec!["a-e0", "b-e0", "c-e0"]);

    let (kept, msg) = restore_entry(all, rec("a-e0", "2026-08-01")).unwrap_err();
    assert_eq!(kept.id, "a-e0");
    assert_eq!(msg, ENTRY_EXISTS);
}

#[test]
fn a_restored_page_is_registered_once() {
    let known = vec![meta("daybook")];
    let back = restore_meta(known.clone(), meta("bmx-site")).unwrap();
    assert_eq!(back.len(), 2);
    assert_eq!(back[1].slug, "bmx-site");
    assert!(restore_meta(known, meta("daybook")).is_none());
    assert_eq!(
        page_exists_message("daybook"),
        "A page called daybook exists again; rename it first."
    );
}

#[test]
fn entries_are_listed_for_an_assistant() {
    assert_eq!(search_results_text(&[]), "No matching entries.");
    let mut r = rec("cap-1-e0", "2026-08-06");
    r.decisions = vec!["pytest".into(), "no mocks".into()];
    let text = search_results_text(&[EntryView { record: r, done: true }]);
    assert_eq!(
        text,
        "[2026-08-06] task · Write tests · Daybook · done · id=cap-1-e0\n\
         \x20   open: which runner\n\
         \x20   decided: pytest; no mocks\n"
    );
}

#[test]
fn pages_are_listed_for_an_assistant() {
    let p = ProjectEntry {
        slug: "daybook".into(),
        name: "Daybook".into(),
        kind: "project".into(),
        scope: "work".into(),
        status: "active".into(),
        last_date: "2026-08-06".into(),
        day_count: 1,
    };
    let text = project_list_text(&[p]);
    assert_eq!(text, "Daybook (daybook) · project · active · work\n");
    assert_eq!(project_list_text(&[]), "No projects yet.");
}

fn trashed(payload: Payload) -> TrashItem {
    TrashItem {
        id: "20260806-101500-0000".into(),
        label: "gone".into(),
        deleted_at: "2026-08-06T10:15:00".into(),
        payload,
    }
}

#[test]
fn a_restored_task_gets_its_line_back() {
    let all = vec![rec("a-e0", "2026-08-01")];
    let mut task = rec("b-e0", "2026-08-06");
    task.due = Some("2026-08-12".into());
    let item = trashed(Payload::Entry { record: task });
    assert_eq!(restore_target("/v", &item.payload), None);
    let back = restore("/v", item, false, all.clone(), "# Tasks\n", vec![meta("daybook")], "DD/MM/YYYY").unwrap();
    match back {
        Restored::Entry { records, tasks_text, label } => {
            let ids: Vec<&str> = records.iter().map(|r| r.id.as_str()).collect();
            assert_eq!(ids, vec!["a-e0", "b-e0"]);
            assert_eq!(label, "Write tests");
            assert_eq!(
                tasks_text.as_deref(),
                Some(
                    "# Tasks\n- [ ] <!-- e:b-e0 --> (work) Write tests — captured 06/08/2026 · due 12/08/2026 · [[projects/daybook]]\n"
                )
            );
        }
        other => panic!("not an entry: {other:?}"),
    }

    let again = trashed(Payload::Entry { record: rec("a-e0", "2026-08-01") });
    match restore("/v", again, false, all.clone(), "", vec![], "DD/MM/YYYY") {
        Err(RestoreError::Refused { item, reason }) => {
            assert_eq!(reason, ENTRY_EXISTS);
            assert_eq!(item.label, "gone");
        }
        other => panic!("not refused: {other:?}"),
    }

    let mut bad = rec("c-e0", "06/08/2026");
    bad.kind = "task".into();
    match restore("/v", trashed(Payload::Entry { record: bad }), false, all, "", vec![], "DD/MM/YYYY") {
        Err(RestoreError::Failed(e)) => assert!(e.contains("06/08/2026")),
        other => panic!("not failed: {other:?}"),
    }
}

#[test]
fn a_restored_note_leaves_the_tasks_alone() {
    let mut note = rec("b-e0", "2026-08-06");
    note.kind = "note".into();
    match restore("/v", trashed(Payload::Entry { record: note }), false, vec![], "# Tasks\n", vec![], "DD/MM/YYYY") {
        Ok(Restored::Entry { records, tasks_text, .. }) => {
            assert_eq!(records.len(), 1);
            assert_eq!(tasks_text, None);
        }
        other => panic!("not an entry: {other:?}"),
    }
}

#[test]
fn a_restored_page_never_overwrites_a_new_one() {
    let payload = Payload::Entity {
        entity_kind: "area".into(),
        slug: "health".into(),
        markdown: "# Health\n".into(),
        meta: Some(meta("health")),
    };
    assert_eq!(restore_target("/v", &payload).as_deref(), Some("/v/areas/health.md"));
    match restore("/v", trashed(payload.clone()), false, vec![], "", vec![meta("daybook")], "DD/MM/YYYY") {
        Ok(Restored::Page { path, markdown, registry, label }) => {
            assert_eq!(path, "/v/areas/health.md");
            assert_eq!(markdown, "# Health\n");
            assert_eq!(label, "health");
            assert_eq!(registry.map(|k| k.len()), Some(2));
        }
        other => panic!("not a page: {other:?}"),
    }
    match restore("/v", trashed(payload), true, vec![], "", vec![], "DD/MM/YYYY") {
        Err(RestoreError::Refused { reason, .. }) => {
            assert_eq!(reason, "A page called health exists again; rename it first.")
        }
        other => panic!("not refused: {other:?}"),
    }
    let odd = Payload::Entity { entity_kind: "idea".into(), slug: "x".into(), markdown: String::new(), meta: None };
    assert_eq!(restore_target("/v", &odd).as_deref(), Some("/v/projects/x.md"));
}

#[test]
fn a_restored_capture_goes_back_to_the_inbox() {
    let payload = Payload::Inbox { id: "cap-9".into(), contents: "text".into() };
    assert_eq!(restore_target("/v", &payload).as_deref(), Some("/v/inbox/cap-9.md"));
    match restore("/v", trashed(payload.clone()), false, vec![], "", vec![], "DD/MM/YYYY") {
        Ok(Restored::Capture { path, contents, label }) => {
            assert_eq!(path, "/v/inbox/cap-9.md");
            assert_eq!(contents, "text");
            assert_eq!(label, "cap-9");
        }
        other => panic!("not a capture: {other:?}"),
    }
    match restore("/v", trashed(payload), true, vec![], "", vec![], "DD/MM/YYYY") {
        Err(RestoreError::Refused { reason, .. }) => assert_eq!(reason, INBOX_EXISTS),
        other => panic!("not refused: {other:?}"),
    }
}

#[test]
fn a_discarded_capture_is_labelled_by_its_text() {
    let file = "---\ncaptured: 2026-08-06T09:30\n---\n\n  Call the dentist about the crown  \n";
    assert_eq!(discard_label(file), "Call the dentist about the crown");
    assert_eq!(discard_label("  no front matter  "), "no front matter");
    let long = format!("---\nx\n---\n\n{}", "a".repeat(100));
    assert_eq!(discard_label(&long).len(), 80);
}

#[test]
fn deleting_a_page_drops_its_registry_rows() {
    let known = vec![meta("daybook"), meta("bmx-site"), meta("daybook")];
    let (path, left) = delete_entity("/v", "project", "Daybook", known);
    assert_eq!(path, "/v/projects/daybook.md");
    let slugs: Vec<&str> = left.iter().map(|m| m.slug.as_str()).collect();
    assert_eq!(slugs, vec!["bmx-site"]);
    let (path, left) = delete_entity("/v", "area", "health", vec![meta("daybook")]);
    assert_eq!(path, "/v/areas/health.md");
    assert_eq!(left.len(), 1);
}

#[test]
fn an_assistant_is_answered_in_plain_words() {
    assert_eq!(page_kind("area"), "area");
    assert_eq!(page_kind("idea"), "project");
    assert_eq!(page_scope("work"), "work");
    assert_eq!(page_scope(""), "personal");
    let mut m = meta("daybook");
    m.name = "Daybook".into();
    let known = vec![m];
    assert_eq!(page_owner(&known, "daybook"), ("Daybook".to_string(), "work".to_string()));
    assert_eq!(page_owner(&known, "bmx"), ("bmx".to_string(), "personal".to_string()));
    assert_eq!(
        captured_reply("2026-08-06-0930-a3f1"),
        "Captured as 2026-08-06-0930-a3f1. Daybook will file it automatically; it is in the inbox until then."
    );
    assert_eq!(created_reply("area", "Health", "health"), "Created area \"Health\" (health).");
    assert_eq!(appended_reply("Daybook", "2026-08-06"), "Appended to Daybook under 2026-08-06.");
}

