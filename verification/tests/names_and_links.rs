use daybook_core::attachments::{attachment_image, MAX_IMAGE_BYTES};
use daybook_core::config::key_env_var;
use daybook_core::attachments::{
    attachment_data_url, attachment_ext, attachment_mime, attachment_rel,
    ensure_attachment_markdown, extract_attachment_refs, is_image_ref, vault_abs,
};
use daybook_core::names::{link_key, sanitize_id, slugify, wikilink_targets};
use daybook_core::projects::{list_projects, project_entry, ProjectEntry};

fn chars(s: &str) -> Vec<char> {
    s.chars().collect()
}

#[test]
fn slugs_are_lowercase_dashed_and_never_empty() {
    assert_eq!(slugify("  BMX Site!! v2 "), "bmx-site-v2");
    assert_eq!(slugify("--Daybook--"), "daybook");
    assert_eq!(slugify("Café au lait"), "café-au-lait");
    assert_eq!(slugify("   "), "untitled");
    assert_eq!(slugify("!!!"), "untitled");
}

#[test]
fn a_slug_is_words_joined_by_single_dashes() {
    for input in ["  Hello, World!  ", "a -- b", "__x__y__", "Ünïcode & more  ", "-", "x"] {
        let s = slugify(input);
        assert!(!s.is_empty());
        assert!(s.chars().all(|c| c.is_alphanumeric() || c == '-'));
        assert!(!s.starts_with('-') && !s.ends_with('-'));
        assert!(!s.contains("--"));
    }
    assert_eq!(slugify("  Hello, World!  "), "hello-world");
    assert_eq!(slugify("a -- b"), "a-b");
    assert_eq!(slugify("-"), "untitled");
}

#[test]
fn attachment_refs_come_once_and_well_formed() {
    let text = "see attachments/a.png) and \"attachments/b c\" then attachments/a.png again";
    let refs = extract_attachment_refs(text);
    assert_eq!(refs, vec!["attachments/a.png".to_string(), "attachments/b".to_string()]);
    for r in &refs {
        assert!(r.starts_with("attachments/"));
        assert!(text.contains(r.as_str()));
        assert!(!r.contains(')') && !r.contains('"') && !r.contains(' ') && !r.contains('\n'));
    }
}

#[test]
fn repairing_attachment_markdown_settles_at_once() {
    let original = "x ![](attachments/a.png) y attachments/b.pdf";
    let once = ensure_attachment_markdown(original, "Rewritten body  \n");
    assert!(once.starts_with("Rewritten body"));
    assert_eq!(ensure_attachment_markdown(original, &once), once);
}

#[test]
fn ids_keep_ascii_letters_digits_and_dashes() {
    assert_eq!(sanitize_id("2026-08-06-1432-a3f1"), "2026-08-06-1432-a3f1");
    assert_eq!(sanitize_id("../etc/passwd é"), "etcpasswd");
}

#[test]
fn link_keys_compare_paths_and_targets() {
    assert_eq!(link_key(&chars(" ./Projects\\Daybook.md ")), "projects/daybook");
    assert_eq!(link_key(&chars("/days/2026-08-06")), "days/2026-08-06");
}

#[test]
fn wikilink_targets_drop_aliases_and_anchors() {
    let t = wikilink_targets(&chars("See [[projects/Daybook|the app]] and [[days/2026-08-06#top]], [[ ]] [[open"));
    assert_eq!(t, vec!["projects/daybook".to_string(), "days/2026-08-06".to_string()]);
}

#[test]
fn attachment_refs_are_found_once_each() {
    let text = "![](attachments/a.png) and [doc](attachments/b.pdf) again ![](attachments/a.png)\nattachments/c.jpg";
    assert_eq!(
        extract_attachment_refs(text),
        vec![
            "attachments/a.png".to_string(),
            "attachments/b.pdf".to_string(),
            "attachments/c.jpg".to_string()
        ]
    );
    assert!(extract_attachment_refs("nothing here").is_empty());
}

#[test]
fn image_refs_and_mime_types() {
    assert!(is_image_ref("attachments/Shot.PNG"));
    assert!(is_image_ref("attachments/x.jpeg"));
    assert!(!is_image_ref("attachments/report.pdf"));
    assert_eq!(attachment_mime("attachments/a.JPG"), "image/jpeg");
    assert_eq!(attachment_mime("attachments/a.gif"), "image/gif");
    assert_eq!(attachment_mime("attachments/a.webp"), "image/webp");
    assert_eq!(attachment_mime("attachments/a.bmp"), "image/png");
    assert_eq!(attachment_mime("noext"), "image/png");
}

#[test]
fn dropped_attachment_markdown_is_put_back() {
    let original = "Look ![](attachments/a.png) and attachments/b.pdf";
    let out = ensure_attachment_markdown(original, "Rewritten body  \n");
    assert_eq!(out, "Rewritten body\n\n![](attachments/a.png)\n\n[b.pdf](attachments/b.pdf)\n");
    let kept = ensure_attachment_markdown(original, "Has ![](attachments/a.png) and attachments/b.pdf");
    assert_eq!(kept, "Has ![](attachments/a.png) and attachments/b.pdf\n");
    assert_eq!(ensure_attachment_markdown("no refs", "body  "), "body  ");
    assert_eq!(ensure_attachment_markdown(original, ""), "![](attachments/a.png)\n\n[b.pdf](attachments/b.pdf)\n");
}

#[test]
fn data_urls_carry_the_mime_and_base64() {
    assert_eq!(attachment_data_url(b"hi", "attachments/a.png"), "data:image/png;base64,aGk=");
    assert_eq!(attachment_data_url(b"", "attachments/a.gif"), "data:image/gif;base64,");
}

#[test]
fn vault_paths_may_not_climb_out() {
    assert_eq!(vault_abs(" projects\\daybook.md ").unwrap(), "projects/daybook.md");
    assert_eq!(vault_abs("../secret").unwrap_err(), "Invalid path");
    assert_eq!(vault_abs(" /etc/passwd").unwrap_err(), "Invalid path");
    assert_eq!(vault_abs("\\etc\\passwd").unwrap_err(), "Invalid path");
    assert_eq!(attachment_rel("attachments/a.png").unwrap(), "attachments/a.png");
    assert_eq!(
        attachment_rel("projects/a.md").unwrap_err(),
        "Invalid attachment path: projects/a.md"
    );
    assert_eq!(
        attachment_rel("attachments/../x").unwrap_err(),
        "Invalid attachment path: attachments/../x"
    );
}

#[test]
fn pasted_image_extensions() {
    assert_eq!(attachment_ext(".JPEG"), "JPEG");
    assert_eq!(attachment_ext("..we*bp!x"), "webpx");
    assert_eq!(attachment_ext("toolongext"), "toolo");
    assert_eq!(attachment_ext(""), "png");
}

#[test]
fn project_pages_are_summarised_from_their_text() {
    let text = "---\nslug: daybook\nname:  Daybook \ntype: project\nscope: work\n---\n\n# Daybook\n\n## Overview\n\nx\n\n## 06/08/2026\n\n### `a`\n\n## 07/08/2026\n\n## 06/08/2026\n";
    let e = project_entry("daybook", "project", text, "DD/MM/YYYY");
    assert_eq!(e.name, "Daybook");
    assert_eq!(e.scope, "work");
    assert_eq!(e.status, "active");
    assert_eq!(e.last_date, "2026-08-07");
    assert_eq!(e.day_count, 2);
    let bare = project_entry("house", "area", "status: paused\n", "DD/MM/YYYY");
    assert_eq!(bare.name, "house");
    assert_eq!(bare.scope, "work");
    assert_eq!(bare.status, "paused");
    assert_eq!(bare.last_date, "");
    assert_eq!(bare.day_count, 0);
}

fn entry(slug: &str, last: &str) -> ProjectEntry {
    ProjectEntry {
        slug: slug.into(),
        name: slug.into(),
        kind: "project".into(),
        scope: "work".into(),
        status: "active".into(),
        last_date: last.into(),
        day_count: 1,
    }
}

#[test]
fn the_most_recently_touched_page_comes_first() {
    let out = list_projects(
        vec![entry("a", "2026-08-01"), entry("b", "2026-08-09")],
        vec![entry("c", "2026-08-05")],
    );
    let slugs: Vec<&str> = out.iter().map(|p| p.slug.as_str()).collect();
    assert_eq!(slugs, vec!["b", "c", "a"]);
}

#[test]
fn images_over_the_limit_are_left_out() {
    let (mime, b64) = attachment_image(b"abc", "attachments/x.png").unwrap();
    assert_eq!(mime, "image/png");
    assert_eq!(b64, "YWJj");
    let big = vec![0u8; MAX_IMAGE_BYTES + 1];
    assert!(attachment_image(&big, "attachments/x.png").is_none());
    assert!(attachment_image(&big[..MAX_IMAGE_BYTES], "attachments/x.png").is_some());
}

#[test]
fn each_provider_has_its_key_variable() {
    assert_eq!(key_env_var("anthropic"), "ANTHROPIC_API_KEY");
    assert_eq!(key_env_var("openai"), "OPENAI_API_KEY");
    assert_eq!(key_env_var("deepseek"), "DEEPSEEK_API_KEY");
}
