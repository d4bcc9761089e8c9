use daybook_core::entries::{
    entry_id, marker_id, query, remove_item, replace_item, task_state, EntryQuery, EntryRecord,
    SOURCE_TRIAGE,
};

fn rec(id: &str, item: &str, kind: &str, slug: &str, date: &str) -> EntryRecord {
    EntryRecord {
        id: id.into(),
        item_id: item.into(),
        date: date.into(),
        time: "09:30".into(),
        scope: "work".into(),
        kind: kind.into(),
        slug: slug.into(),
        name: String::new(),
        title: "t".into(),
        body: String::new(),
        accomplished: vec![],
        decisions: vec![],
        open: vec![],
        due: None,
        source: SOURCE_TRIAGE.into(),
    }
}

fn state_of(pairs: &[(String, bool)], id: &str) -> Option<bool> {
    pairs.iter().rev().find(|(k, _)| k == id).map(|(_, d)| *d)
}

#[test]
fn reprocessing_replaces_instead_of_duplicating() {
    let all = replace_item(
        Vec::new(),
        "cap-1",
        vec![rec("cap-1-e0", "cap-1", "task", "", "2026-08-06")],
    );
    let all = replace_item(
        all,
        "cap-1",
        vec![
            rec("cap-1-e0", "cap-1", "task", "daybook", "2026-08-06"),
            rec("cap-1-e1", "cap-1", "note", "", "2026-08-06"),
        ],
    );
    assert_eq!(all.len(), 2);
    assert_eq!(all.iter().filter(|r| r.id == "cap-1-e0").count(), 1);
    assert_eq!(all[0].slug, "daybook");
}

#[test]
fn other_items_are_untouched_by_replace_and_remove() {
    let all = replace_item(
        Vec::new(),
        "cap-1",
        vec![rec("cap-1-e0", "cap-1", "task", "", "2026-08-06")],
    );
    let all = replace_item(
        all,
        "cap-2",
        vec![rec("cap-2-e0", "cap-2", "note", "", "2026-08-07")],
    );
    let all = replace_item(
        all,
        "cap-1",
        vec![rec("cap-1-e0", "cap-1", "idea", "", "2026-08-06")],
    );
    assert_eq!(all.len(), 2);
    let all = remove_item(all, "cap-1").expect("cap-1 was there");
    assert_eq!(all.len(), 1);
    assert_eq!(all[0].item_id, "cap-2");
}

#[test]
fn removing_an_unknown_capture_changes_nothing() {
    let all = replace_item(
        Vec::new(),
        "cap-1",
        vec![rec("cap-1-e0", "cap-1", "task", "", "2026-08-06")],
    );
    assert!(remove_item(all, "cap-9").is_none());
}

#[test]
fn replace_sorts_by_date_time_and_id() {
    let all = replace_item(
        vec![rec("cap-2-e0", "cap-2", "note", "", "2026-08-07")],
        "cap-1",
        vec![
            rec("cap-1-e1", "cap-1", "note", "", "2026-08-06"),
            rec("cap-1-e0", "cap-1", "task", "", "2026-08-06"),
        ],
    );
    let ids: Vec<&str> = all.iter().map(|r| r.id.as_str()).collect();
    assert_eq!(ids, vec!["cap-1-e0", "cap-1-e1", "cap-2-e0"]);
}

#[test]
fn entry_ids_number_the_capture() {
    assert_eq!(entry_id("cap-1", 0), "cap-1-e0");
    assert_eq!(entry_id("2026-08-06-0930-ab", 12), "2026-08-06-0930-ab-e12");
}

#[test]
fn marker_ids_are_read_and_blank_ones_refused() {
    let line: Vec<char> = "- [ ] <!-- e:cap-1-e0 --> Write tests".chars().collect();
    assert_eq!(marker_id(&line), Some("cap-1-e0".to_string()));
    let blank: Vec<char> = "- [ ] <!-- e:   --> x".chars().collect();
    assert_eq!(marker_id(&blank), None);
    let open: Vec<char> = "- [ ] <!-- e:cap-1 never closed".chars().collect();
    assert_eq!(marker_id(&open), None);
    let none: Vec<char> = "- [ ] plain".chars().collect();
    assert_eq!(marker_id(&none), None);
}

#[test]
fn done_state_is_read_back_from_the_markdown() {
    let text = "# Tasks\n\n\
         - [x] <!-- e:cap-1-e0 --> (work) Write tests — captured 06/08/2026\n\
         - [ ] <!-- e:cap-1-e1 --> (work) Ship it — captured 06/08/2026\n\
         - [ ] a hand-written task with no marker\n";
    let state = task_state(text);
    assert_eq!(state_of(&state, "cap-1-e0"), Some(true));
    assert_eq!(state_of(&state, "cap-1-e1"), Some(false));
    assert_eq!(state.len(), 2);
}

#[test]
fn an_upper_case_tick_counts_as_done() {
    let state = task_state("  - [X] <!-- e:a --> one\n- [ ] <!-- e:b --> two\n");
    assert_eq!(state, vec![("a".to_string(), true), ("b".to_string(), false)]);
}

#[test]
fn query_filters_by_project_and_hides_finished_tasks() {
    let mut open_one = rec("cap-1-e2", "cap-1", "project", "daybook", "2026-08-05");
    open_one.open = vec!["Decide on the index format".into()];
    let all = replace_item(
        Vec::new(),
        "cap-1",
        vec![
            rec("cap-1-e0", "cap-1", "task", "daybook", "2026-08-06"),
            rec("cap-1-e1", "cap-1", "task", "bmx-site", "2026-08-06"),
            open_one,
        ],
    );
    let tasks = "- [x] <!-- e:cap-1-e0 --> (work) done one\n";

    let by_project = query(
        all.clone(),
        tasks,
        &EntryQuery {
            slug: Some("daybook".into()),
            ..Default::default()
        },
    );
    assert_eq!(by_project.len(), 2);

    let outstanding = query(
        all.clone(),
        tasks,
        &EntryQuery {
            kind: Some("task".into()),
            undone_only: true,
            ..Default::default()
        },
    );
    assert_eq!(outstanding.len(), 1);
    assert_eq!(outstanding[0].record.slug, "bmx-site");

    let loops = query(
        all,
        tasks,
        &EntryQuery {
            open_only: true,
            ..Default::default()
        },
    );
    assert_eq!(loops.len(), 1);
    assert_eq!(loops[0].record.open, vec!["Decide on the index format"]);
}

#[test]
fn query_is_newest_first_since_a_date_and_limited() {
    let all = vec![
        rec("a-e0", "a", "note", "", "2026-08-01"),
        rec("b-e0", "b", "note", "", "2026-08-03"),
        rec("c-e0", "c", "note", "", "2026-08-02"),
    ];
    let since = query(
        all.clone(),
        "",
        &EntryQuery {
            since: Some("2026-08-02".into()),
            ..Default::default()
        },
    );
    let ids: Vec<&str> = since.iter().map(|v| v.record.id.as_str()).collect();
    assert_eq!(ids, vec!["b-e0", "c-e0"]);

    let limited = query(
        all,
        "",
        &EntryQuery {
            limit: Some(1),
            ..Default::default()
        },
    );
    assert_eq!(limited.len(), 1);
    assert_eq!(limited[0].record.id, "b-e0");
    assert!(!limited[0].done);
}
