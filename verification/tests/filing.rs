use daybook_core::actions::{plan_actions, PageOp};
use daybook_core::filing::{apply_triage, link_for, EntryWrite};
use daybook_core::history::InboxItem;
use daybook_core::projects::ProjectMeta;
use daybook_core::triage::{RoutedAction, RoutedEntry, TriageResult};

fn meta(slug: &str, name: &str, kind: &str) -> ProjectMeta {
    ProjectMeta {
        slug: slug.into(),
        name: name.into(),
        kind: kind.into(),
        scope: "work".into(),
        status: "active".into(),
        parent: String::new(),
        aliases: vec![],
        description: String::new(),
    }
}

fn action(op: &str, name: &str, kind: &str, scope: &str, slug: &str, parent: &str, status: &str) -> RoutedAction {
    RoutedAction {
        op: op.into(),
        name: name.into(),
        kind: kind.into(),
        scope: scope.into(),
        slug: slug.into(),
        parent: parent.into(),
        status: status.into(),
    }
}

fn entry(scope: &str, kind: &str, slug: &str, name: &str, title: &str, body: &str) -> RoutedEntry {
    RoutedEntry {
        scope: scope.into(),
        kind: kind.into(),
        slug: slug.into(),
        name: name.into(),
        is_new: false,
        title: title.into(),
        body: body.into(),
        accomplished: vec![],
        decisions: vec![],
        open: vec![],
        due: None,
    }
}

fn item(text: &str) -> InboxItem {
    InboxItem {
        id: "cap-1".into(),
        date: "2026-08-06".into(),
        time: "09:30".into(),
        text: text.into(),
        chars: text.chars().count(),
    }
}

#[test]
fn a_new_page_is_created_under_a_known_parent() {
    let mut known = vec![meta("work-stuff", "Work stuff", "area")];
    let (ops, done) = plan_actions(
        &[action("create_page", " BMX Site ", "project", "work", "", "Work Stuff", "")],
        &mut known,
    );
    assert_eq!(done, vec!["created project BMX Site under Work stuff".to_string()]);
    assert_eq!(ops.len(), 2);
    match &ops[0] {
        PageOp::Create { kind, name, scope } => {
            assert_eq!((kind.as_str(), name.as_str(), scope.as_str()), ("project", "BMX Site", "work"));
        }
        _ => panic!("expected a create"),
    }
    match &ops[1] {
        PageOp::SetParent { kind, slug, parent } => {
            assert_eq!((kind.as_str(), slug.as_str(), parent.as_str()), ("project", "bmx-site", "work-stuff"));
        }
        _ => panic!("expected a parent change"),
    }
    assert_eq!(known.len(), 2);
    assert_eq!(known[1].slug, "bmx-site");
    assert_eq!(known[1].status, "active");
}

#[test]
fn creating_an_existing_page_only_says_so() {
    let mut known = vec![meta("daybook", "Daybook", "project")];
    let (ops, done) = plan_actions(&[action("create_page", "Daybook", "", "", "", "", "")], &mut known);
    assert!(ops.is_empty());
    assert_eq!(done, vec!["Daybook already existed".to_string()]);
    assert_eq!(known.len(), 1);
}

#[test]
fn rename_move_and_status_change_known_pages_only() {
    let mut known = vec![meta("daybook", "Daybook", "project"), meta("tools", "Tools", "area")];
    let acts = [
        action("rename_page", "Daybook App", "", "", "Daybook", "", ""),
        action("move_page", "", "", "", "daybook", "tools", ""),
        action("set_status", "", "", "", "daybook", "", " paused "),
        action("set_status", "", "", "", "daybook", "", "archived"),
        action("rename_page", "X", "", "", "nowhere", "", ""),
        action("move_page", "", "", "", "daybook", "missing-parent", ""),
        action("delete_page", "", "", "", "daybook", "", ""),
        action("move_page", "", "", "", "daybook", "", ""),
    ];
    let (ops, done) = plan_actions(&acts, &mut known);
    assert_eq!(
        done,
        vec![
            "renamed Daybook to Daybook App".to_string(),
            "moved Daybook App under Tools".to_string(),
            "marked Daybook App paused".to_string(),
        ]
    );
    assert_eq!(ops.len(), 3);
    assert_eq!(known[0].name, "Daybook App");
    assert_eq!(known[0].status, "paused");
    // An empty parent slugifies to `untitled`, which names no page, so the
    // last move is dropped and the page stays under Tools.
    assert_eq!(known[0].parent, "tools");
}

#[test]
fn links_point_at_areas_or_projects() {
    let known = vec![meta("health", "Health", "area")];
    let es = vec![entry("work", "area", "gym", "Gym", "t", "")];
    assert_eq!(link_for(&known, &es, " health ").as_deref(), Some("areas/health"));
    assert_eq!(link_for(&known, &es, "gym").as_deref(), Some("areas/gym"));
    assert_eq!(link_for(&known, &es, "daybook").as_deref(), Some("projects/daybook"));
    assert_eq!(link_for(&known, &es, "  "), None);
}

#[test]
fn filing_a_capture_plans_every_write() {
    let mut known = vec![meta("daybook", "Daybook", "project")];
    let triage = TriageResult {
        summary: vec!["Shipped routing".into()],
        entries: vec![
            entry("work", "project", "daybook", "Daybook", "Inbox routing", "Wired it."),
            entry("work", "task", "daybook", "Daybook", "Write tests", ""),
            entry("personal", "idea", "", "", "Ship a CLI", " maybe "),
            entry("personal", "note", "", "", "Mood", "Tired ![](attachments/a.png)"),
            entry("work", "project", "bmx-site", "BMX Site", "Kickoff", ""),
        ],
        actions: vec![],
    };
    let plan = apply_triage(&item("dump ![](attachments/a.png)"), &triage, &mut known);

    assert_eq!(plan.entry_writes.len(), 2);
    match &plan.entry_writes[0] {
        EntryWrite::Task { scope, label, due, entry_id, link } => {
            assert_eq!(scope, "work");
            assert_eq!(label, "Write tests");
            assert_eq!(*due, None);
            assert_eq!(entry_id, "cap-1-e1");
            assert_eq!(link.as_deref(), Some("projects/daybook"));
        }
        _ => panic!("expected the task first"),
    }
    match &plan.entry_writes[1] {
        EntryWrite::Idea { scope, text, entry_id, link } => {
            assert_eq!(scope, "personal");
            assert_eq!(text, "Ship a CLI — maybe");
            assert_eq!(entry_id, "cap-1-e2");
            assert_eq!(*link, None);
        }
        _ => panic!("expected the idea second"),
    }

    let personal = plan.personal.as_ref().unwrap();
    assert_eq!(personal.len(), 2);
    assert_eq!(personal[0].dest, "ideas");
    assert_eq!(personal[0].body, " maybe ");
    assert_eq!(personal[1].dest, "note");
    assert_eq!(personal[1].body, "Tired ![](attachments/a.png)\n");

    assert_eq!(plan.entities.len(), 2);
    assert_eq!(plan.entities[0].slug, "daybook");
    assert!(plan.entities[0].body.starts_with("**Inbox routing**\n\nWired it.\n\n[[days/2026-08-06]]\n\n"));
    // The capture's attachments go on the first page only.
    assert!(plan.entities[0].body.contains("![](attachments/a.png)"));
    assert_eq!(plan.entities[1].slug, "bmx-site");
    assert!(!plan.entities[1].body.contains("attachments/"));

    assert_eq!(plan.records.len(), 5);
    assert_eq!(plan.records[4].id, "cap-1-e4");
    assert_eq!(plan.records[4].source, "triage");
    assert_eq!(plan.day_title, "Inbox routing");

    assert_eq!(
        plan.result.destinations,
        vec!["task (work)", "idea (personal)", "note (personal)", "personal", "project/daybook", "project/bmx-site"]
    );
    assert_eq!(plan.result.new_entities, vec!["BMX Site".to_string()]);
    assert_eq!(known.len(), 2);
    assert_eq!(known[1].slug, "bmx-site");
    assert_eq!(plan.result.entry_count, 5);
}

#[test]
fn a_work_only_capture_leaves_personal_alone() {
    let mut known = vec![];
    let triage = TriageResult {
        summary: vec![],
        entries: vec![entry("work", "note", "", "", "", "just a note")],
        actions: vec![],
    };
    let plan = apply_triage(&item("just a note"), &triage, &mut known);
    assert!(plan.personal.is_none());
    assert!(plan.entities.is_empty());
    assert_eq!(plan.day_title, "Entry");
    assert_eq!(plan.result.destinations, vec!["note (work)".to_string()]);
}
