use daybook_core::drain::{drain_selection, touched_pages, INBOX_EMPTY, ITEM_NOT_FOUND};
use daybook_core::filing::ItemProcessResult;
use daybook_core::history::InboxItem;
use daybook_core::projects::ProjectMeta;

fn item(id: &str, date: &str) -> InboxItem {
    InboxItem { id: id.into(), date: date.into(), time: "09:30".into(), text: "t".into(), chars: 1 }
}

fn done(dests: &[&str]) -> ItemProcessResult {
    ItemProcessResult {
        id: "cap".into(),
        date: "2026-08-06".into(),
        entry_count: dests.len(),
        destinations: dests.iter().map(|d| d.to_string()).collect(),
        new_entities: vec![],
        summary: vec![],
        actions: vec![],
    }
}

fn meta(slug: &str, name: &str) -> ProjectMeta {
    ProjectMeta {
        slug: slug.into(),
        name: name.into(),
        kind: "project".into(),
        scope: "work".into(),
        status: "active".into(),
        parent: String::new(),
        aliases: vec![],
        description: String::new(),
    }
}

#[test]
fn a_run_takes_what_it_is_asked_for() {
    let inbox = || vec![item("a", "2026-08-05"), item("b", "2026-08-06"), item("c", "2026-08-06")];
    let all = drain_selection(inbox(), None, None).unwrap();
    assert_eq!(all.len(), 3);
    let day: Vec<String> = drain_selection(inbox(), Some("2026-08-06"), None).unwrap().into_iter().map(|i| i.id).collect();
    assert_eq!(day, vec!["b", "c"]);
    let one = drain_selection(inbox(), None, Some("a")).unwrap();
    assert_eq!(one.len(), 1);
    assert_eq!(drain_selection(inbox(), None, Some("zz")).err().as_deref(), Some(ITEM_NOT_FOUND));
    assert_eq!(drain_selection(vec![], None, None).err().as_deref(), Some(INBOX_EMPTY));
    assert_eq!(drain_selection(inbox(), Some("2026-01-01"), None).err().as_deref(), Some(INBOX_EMPTY));
}

#[test]
fn only_touched_pages_get_their_overview_rewritten() {
    let batch = vec![
        done(&["project/daybook", "day", "personal"]),
        done(&["area/health", "project/daybook", "idea", "task"]),
    ];
    let (pages, personal) = touched_pages(&batch, &vec![meta("daybook", "Daybook")]);
    assert!(personal);
    let got: Vec<(&str, &str, &str)> =
        pages.iter().map(|p| (p.kind.as_str(), p.slug.as_str(), p.name.as_str())).collect();
    assert_eq!(got, vec![("project", "daybook", "Daybook"), ("area", "health", "health")]);

    let (none, personal) = touched_pages(&[done(&["day"])], &vec![]);
    assert!(none.is_empty());
    assert!(!personal);
}
