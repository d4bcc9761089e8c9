use daybook_core::config::{
    default_context_days, default_effort, default_hotkey, default_provider, default_vault_path,
    Settings,
};
use daybook_core::paths::{
    areas_dir, attachments_dir, config_dir, days_dir, dir_for_kind, entries_path, ideas_path,
    inbox_dir, join, personal_path, projects_dir, raw_dir, settings_path, tasks_path, trash_dir,
};
use daybook_core::search::{
    backlink_skips, backlink_target, backlinks_in_file, hit_date, search_file, search_query,
    search_skips, Backlink, SearchHit,
};

#[test]
fn the_vault_layout() {
    assert_eq!(inbox_dir("/v"), "/v/inbox");
    assert_eq!(raw_dir("/v/"), "/v/raw");
    assert_eq!(days_dir("/v"), "/v/days");
    assert_eq!(projects_dir("/v"), "/v/projects");
    assert_eq!(areas_dir("/v"), "/v/areas");
    assert_eq!(attachments_dir("/v"), "/v/attachments");
    assert_eq!(config_dir("/v"), "/v/config");
    assert_eq!(ideas_path("/v"), "/v/ideas.md");
    assert_eq!(tasks_path("/v"), "/v/tasks.md");
    assert_eq!(personal_path("/v"), "/v/personal.md");
    assert_eq!(entries_path("/v"), "/v/config/entries.jsonl");
    assert_eq!(trash_dir("/v"), "/v/config/trash");
    assert_eq!(settings_path("/home/me/.config/daybook"), "/home/me/.config/daybook/settings.json");
    assert_eq!(join("", "x"), "x");
}

#[test]
fn only_projects_and_areas_have_a_directory() {
    assert_eq!(dir_for_kind("/v", "project").as_deref(), Some("/v/projects"));
    assert_eq!(dir_for_kind("/v", "area").as_deref(), Some("/v/areas"));
    assert_eq!(dir_for_kind("/v", "task"), None);
}

#[test]
fn settings_defaults_and_the_key_fallback() {
    assert_eq!(default_effort(), "medium");
    assert_eq!(default_hotkey(), "CmdOrControl+Shift+Space");
    assert_eq!(default_context_days(), 3);
    assert_eq!(default_provider(), "deepseek");
    assert_eq!(Settings::with_vault("/v".into(), "m".into()).normalized_provider(), "deepseek");
    assert_eq!(default_vault_path(Some("/home/me")), "/home/me/Journal");
    assert_eq!(default_vault_path(None), "Journal");

    let mut s = Settings::with_vault("/v".into(), "some-model".into());
    assert_eq!(s.vault(), "/v");
    assert_eq!(s.model, "some-model");
    assert_eq!(s.date_format, "DD/MM/YYYY");
    assert_eq!(s.time_format, "24h");
    assert_eq!(s.resolved_api_key(Some("from-env".into())), "from-env");
    assert_eq!(s.resolved_api_key(None), "");
    s.api_key = "  stored  ".into();
    assert_eq!(s.resolved_api_key(Some("from-env".into())), "stored");
}

#[test]
fn search_queries_are_trimmed_and_lowercased() {
    assert_eq!(search_query("  Inbox ROUTING ").as_deref(), Some("inbox routing"));
    assert_eq!(search_query("   "), None);
    assert!(search_skips("config/settings.json"));
    assert!(!search_skips("days/2026-08-06.md"));
    assert_eq!(hit_date("2026-08-06"), "2026-08-06");
    assert_eq!(hit_date("daybook"), "");
}

#[test]
fn search_reports_matching_lines_until_the_limit() {
    let text = "# Daybook\n  Inbox routing works  \nnothing\nMORE inbox\nlast inbox\n";
    let mut hits: Vec<SearchHit> = Vec::new();
    let full = search_file("projects/daybook.md", "", text, "inbox", 10, &mut hits);
    assert!(!full);
    assert_eq!(hits.len(), 3);
    assert_eq!(hits[0].path, "projects/daybook.md");
    assert_eq!(hits[0].kind, "projects");
    assert_eq!(hits[0].line, 2);
    assert_eq!(hits[0].text, "Inbox routing works");
    assert_eq!(hits[1].line, 4);

    // A second file fills the list and says so.
    let full = search_file("days/2026-08-06.md", "2026-08-06", "inbox\ninbox\n", "inbox", 4, &mut hits);
    assert!(full);
    assert_eq!(hits.len(), 4);
    assert_eq!(hits[3].date, "2026-08-06");
    assert_eq!(hits[3].line, 1);
}

#[test]
fn long_lines_are_cut_to_three_hundred_characters() {
    let line = "inbox ".repeat(100);
    let mut hits = Vec::new();
    search_file("raw/2026-08-06.md", "2026-08-06", &line, "inbox", 5, &mut hits);
    assert_eq!(hits[0].text.chars().count(), 300);
}

#[test]
fn backlinks_match_the_full_and_the_short_form() {
    let (want, short) = backlink_target(" Projects/Daybook.md ").unwrap();
    assert_eq!(want, "projects/daybook");
    assert_eq!(short, "daybook");
    assert_eq!(backlink_target("  "), None);

    assert!(backlink_skips("config/x.md", &want));
    assert!(backlink_skips("inbox/cap.md", &want));
    assert!(backlink_skips("projects/daybook.md", &want));
    assert!(!backlink_skips("days/2026-08-06.md", &want));

    let text = "intro\n- worked on [[projects/daybook|Daybook]]\n- see [[daybook#open]]\n- [[other]]\n";
    let mut out: Vec<Backlink> = Vec::new();
    let full = backlinks_in_file("days/2026-08-06.md", text, &want, &short, 10, &mut out);
    assert!(!full);
    assert_eq!(out.len(), 2);
    assert_eq!(out[0].line, 2);
    assert_eq!(out[0].kind, "days");
    assert_eq!(out[0].text, "- worked on [[projects/daybook|Daybook]]");
    assert_eq!(out[1].line, 3);

    let mut one: Vec<Backlink> = Vec::new();
    assert!(backlinks_in_file("days/2026-08-06.md", text, &want, &short, 1, &mut one));
    assert_eq!(one.len(), 1);
}

#[test]
fn providers_are_read_loosely() {
    let mut s = Settings::with_vault("/v".into(), "m".into());
    s.provider = " OpenAI ".into();
    assert_eq!(s.normalized_provider(), "openai");
    s.provider = "ANTHROPIC".into();
    assert_eq!(s.normalized_provider(), "anthropic");
    s.provider = "mystery".into();
    assert_eq!(s.normalized_provider(), "deepseek");
}

#[test]
fn a_new_page_starts_with_frontmatter_and_an_empty_overview() {
    let (meta, page) = daybook_core::projects::new_entity("area", "  Health & Fitness ", "personal").unwrap();
    assert_eq!(meta.slug, "health-fitness");
    assert_eq!(meta.name, "Health & Fitness");
    assert_eq!(meta.kind, "area");
    assert_eq!(meta.scope, "personal");
    assert_eq!(meta.status, "active");
    assert_eq!(
        page,
        "---\nslug: health-fitness\nname: Health & Fitness\ntype: area\nscope: personal\n---\n\n\
         # Health & Fitness\n\n## Overview\n\n- _(nothing filed yet)_\n\n"
    );
    let (m2, _) = daybook_core::projects::new_entity("whatever", "X", "whatever").unwrap();
    assert_eq!((m2.kind.as_str(), m2.scope.as_str()), ("project", "work"));
    assert_eq!(daybook_core::projects::new_entity("project", "   ", "work").unwrap_err(), "Name is required");
    assert_eq!(
        daybook_core::projects::page_exists("project", "daybook"),
        "A project named 'daybook' already exists"
    );
    assert_eq!(daybook_core::paths::page_file("/v", "area", "Health"), "/v/areas/health.md");
    assert_eq!(daybook_core::paths::page_file("/v", "task", "Daybook"), "/v/projects/daybook.md");
}

#[test]
fn nothing_in_the_trash_reaches_search_or_backlinks() {
    let trash = trash_dir("");
    let file = format!("{trash}/1754470000-entry.json");
    assert_eq!(file, "config/trash/1754470000-entry.json");
    assert!(search_skips(&file));
    assert!(backlink_skips(&file, "projects/daybook"));
}

#[test]
fn an_absolute_name_replaces_the_base() {
    assert_eq!(join("/v", "/etc/passwd"), "/etc/passwd");
    assert_eq!(join("/v", "attachments/a.png"), "/v/attachments/a.png");
}
