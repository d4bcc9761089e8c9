use daybook_core::projects::ProjectMeta;
use daybook_core::triage::{
    bullets, clean_overview, destination, json_payload, normalize_result, overview_refusal,
    overview_system, overview_user, primary_title, reasoning_effort, render_day_item_body,
    render_entity_section, system_prompt, triage_refusal, user_prompt, OverviewRequest,
    RoutedEntry, TriageRequest, TriageResult, IMAGES_NOTE, NO_PROJECTS, TRIAGE_EXAMPLE,
    TRIAGE_RULES,
};

fn entry(kind: &str, title: &str, body: &str) -> RoutedEntry {
    RoutedEntry {
        scope: "work".into(),
        kind: kind.into(),
        slug: "daybook".into(),
        name: "Daybook".into(),
        is_new: false,
        title: title.into(),
        body: body.into(),
        accomplished: vec![],
        decisions: vec![],
        open: vec![],
        due: None,
    }
}

fn strings(xs: &[&str]) -> Vec<String> {
    xs.iter().map(|s| s.to_string()).collect()
}

#[test]
fn an_entity_section_lists_what_was_done_decided_and_left_open() {
    let mut e = entry("project", "  Inbox routing ", " Got the inbox wired. ");
    e.accomplished = strings(&["Wired inbox triage"]);
    e.decisions = strings(&[" Kept raw append-only "]);
    e.open = strings(&["Decide on the index format"]);
    let s = render_entity_section(&e, "2026-08-06");
    assert_eq!(
        s,
        "**Inbox routing**\n\n\
         **Accomplished**\n\n- Wired inbox triage\n\n\
         **Decided**\n\n- Kept raw append-only\n\n\
         **Open**\n\n- Decide on the index format\n\n\
         Got the inbox wired.\n\n\
         [[days/2026-08-06]]\n"
    );
}

#[test]
fn an_empty_entity_section_is_only_the_day_link() {
    let e = entry("project", " ", "");
    assert_eq!(render_entity_section(&e, "2026-08-06"), "[[days/2026-08-06]]\n");
}

#[test]
fn bullets_are_trimmed_one_per_line() {
    let b: String = bullets(&strings(&[" a ", "b"])).into_iter().collect();
    assert_eq!(b, "- a\n- b\n");
}

#[test]
fn destinations_name_the_page_or_the_list() {
    assert_eq!(destination("project", "daybook", "Daybook"), "[[projects/daybook|Daybook]]");
    assert_eq!(destination("area", "health", "Health"), "[[areas/health|Health]]");
    assert_eq!(destination("idea", "x", "y"), "ideas");
    assert_eq!(destination("task", "x", "y"), "tasks");
    assert_eq!(destination("something", "x", "y"), "note");
}

#[test]
fn the_day_item_body_has_one_part_per_entry() {
    let mut t = entry("task", "Write tests", "");
    t.due = Some("2026-08-12".into());
    let mut n = entry("note", "Mood", " Tired today ");
    n.due = Some("2026-08-12".into());
    let s = render_day_item_body(&[t, n]);
    assert_eq!(
        s,
        "### Write tests · work · tasks\n\nDue: 2026-08-12\n\n\
         ### Mood · work · note\n\nTired today\n\n"
    );
}

#[test]
fn the_primary_title_falls_back_to_the_summary_then_entry() {
    let es = vec![entry("task", "  Book dentist ", "")];
    assert_eq!(primary_title(&es, &[]), "Book dentist");
    let blank = vec![entry("task", " ", "")];
    let long = "x".repeat(100);
    assert_eq!(primary_title(&blank, &[long.clone()]), "x".repeat(80));
    assert_eq!(primary_title(&[], &strings(&["Short"])), "Short");
    assert_eq!(primary_title(&[], &[]), "Entry");
}

#[test]
fn answers_are_normalized_entry_by_entry() {
    let mut a = entry("Project", "T", "B");
    a.scope = "PERSONAL".into();
    a.slug = "".into();
    a.name = "BMX Site!".into();
    a.due = Some("12/08/2026".into());
    let mut b = entry("weird", "T2", "B2");
    b.scope = "whatever".into();
    b.slug = "".into();
    b.name = "".into();
    let mut c = entry("task", "T3", "");
    c.slug = "Keep As Is".into();
    c.due = Some("2026-08-12".into());
    let r = normalize_result(TriageResult {
        summary: strings(&["s"]),
        entries: vec![a, b, c],
        actions: vec![],
    });
    assert_eq!(r.summary, strings(&["s"]));
    assert_eq!(r.entries[0].scope, "personal");
    assert_eq!(r.entries[0].kind, "project");
    assert_eq!(r.entries[0].slug, "bmx-site");
    assert_eq!(r.entries[0].name, "BMX Site!");
    assert_eq!(r.entries[0].due, None);
    assert_eq!(r.entries[1].scope, "work");
    assert_eq!(r.entries[1].kind, "project");
    assert_eq!(r.entries[1].slug, "untitled");
    assert_eq!(r.entries[1].name, "untitled");
    assert_eq!(r.entries[2].kind, "task");
    assert_eq!(r.entries[2].slug, "Keep As Is");
    assert_eq!(r.entries[2].due.as_deref(), Some("2026-08-12"));
}

#[test]
fn json_is_taken_out_of_a_code_fence() {
    assert_eq!(json_payload("  ```json\n{\"a\":1}\n```  "), "{\"a\":1}");
    assert_eq!(json_payload("```\n{}\n```"), "{}");
    assert_eq!(json_payload(" {\"b\":2} "), "{\"b\":2}");
}

fn request<'a>(provider: &'a str, key: &'a str, text: &'a str) -> TriageRequest<'a> {
    TriageRequest {
        provider,
        api_key: key,
        model: "m",
        effort: "medium",
        date: "2026-08-06",
        time: "09:30",
        text,
        projects: &[],
        glossary: &[],
        profile: "",
    }
}

#[test]
fn triage_needs_a_key_and_some_text() {
    assert_eq!(
        triage_refusal(&request("anthropic", "", "hi")).as_deref(),
        Some("No Anthropic API key (or ANTHROPIC_API_KEY) set. Add one in Settings.")
    );
    assert_eq!(
        triage_refusal(&request("deepseek", "", "hi")).as_deref(),
        Some("No DeepSeek API key (or DEEPSEEK_API_KEY) set. Add one in Settings.")
    );
    assert_eq!(
        triage_refusal(&request("openai", "", "hi")).as_deref(),
        Some("No OpenAI API key (or OPENAI_API_KEY) set. Add one in Settings.")
    );
    assert_eq!(
        triage_refusal(&request("openai", "k", "  \n ")).as_deref(),
        Some("Nothing to triage: capture is empty.")
    );
    assert_eq!(triage_refusal(&request("openai", "k", "text")), None);
}

#[test]
fn the_system_prompt_carries_profile_pages_and_glossary() {
    let bare = system_prompt(&[], &[], "# Profile\n- \n");
    assert_eq!(bare, format!("{TRIAGE_RULES}{TRIAGE_EXAMPLE}\n\n{NO_PROJECTS}"));

    let p = ProjectMeta {
        slug: "daybook".into(),
        name: "Daybook".into(),
        kind: "project".into(),
        scope: "work".into(),
        status: "active".into(),
        aliases: strings(&["the journal", "db"]),
        description: "Capture app".into(),
        parent: String::new(),
    };
    let full = system_prompt(&[p], &strings(&["Verus"]), "  I write Rust.  ");
    assert!(full.contains("Author profile (durable context — do not echo it back):\nI write Rust.\n\n"));
    assert!(full.contains(
        "Known projects/areas:\n- Daybook (slug: daybook, kind: project, scope: work) \
         [also called: the journal, db] — Capture app\n\n"
    ));
    assert!(full.ends_with("- Verus\n\n"));
}

#[test]
fn the_user_prompt_wraps_the_capture() {
    assert_eq!(
        user_prompt("2026-08-06", "09:30", "  hello \n", false),
        "Triage this capture from 2026-08-06 at 09:30. Split it into discrete entries and route \
         each one. Return JSON only.\n\n<raw>\nhello\n</raw>"
    );
    assert!(user_prompt("d", "t", "x", true).ends_with(IMAGES_NOTE));
}

#[test]
fn efforts_map_onto_three_levels() {
    assert_eq!(reasoning_effort("minimal"), "low");
    assert_eq!(reasoning_effort("none"), "low");
    assert_eq!(reasoning_effort("xhigh"), "high");
    assert_eq!(reasoning_effort("max"), "high");
    assert_eq!(reasoning_effort("medium"), "medium");
    assert_eq!(reasoning_effort("bogus"), "medium");
}

#[test]
fn overview_requests_and_replies() {
    let req = OverviewRequest {
        provider: "anthropic",
        api_key: "",
        model: "m",
        effort: "medium",
        title: "Daybook",
        kind: "project",
        page_markdown: "  # Daybook\n",
    };
    assert_eq!(
        overview_refusal(&req).as_deref(),
        Some("No API key set for overview refresh.")
    );
    assert!(overview_system(&req)
        .starts_with("You maintain the standing Overview section of a project page named \"Daybook\""));
    assert_eq!(
        overview_user(&req),
        "Rewrite the Overview for this page. Return bullets only.\n\n<page>\n# Daybook\n</page>"
    );
    let keyed = OverviewRequest { api_key: "k", ..req };
    assert_eq!(overview_refusal(&keyed), None);

    assert_eq!(
        clean_overview("```markdown\n## Overview\n- one\n- two\n```").unwrap(),
        "- one\n- two"
    );
    assert_eq!(clean_overview("# Overview\n- x").unwrap(), "- x");
    assert_eq!(
        clean_overview("```\n```").unwrap_err(),
        "Overview refresh returned empty text."
    );
}

#[test]
fn glossary_lines_become_terms() {
    let terms = daybook_core::triage::glossary_terms("# comment\n  Toolport \n\n#also comment\nVerus\n");
    assert_eq!(terms, strings(&["Toolport", "Verus"]));
}
