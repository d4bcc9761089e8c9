//! Triage: what the model is asked, what its answer is normalized to, and
//! the markdown an answer is rendered into on the day note and entity pages.
use crate::datetime::{valid_date};
use crate::calendar::{naive_date_parse, pat_iso};
use crate::names::{slugify, spec_slugify};
use crate::projects::ProjectMeta;
use crate::text::{
    chars_of, is_blank, is_blank_exec, join, lines, lines_of, lowercase, push_all, push_str,
    starts_with, starts_with_str, take_chars, take_chars_exec, to_lowercase, to_string, trim,
    trim_exec, sv, vv,
};
use vstd::prelude::*;

verus! {

/// One routed piece of a capture.
#[derive(Clone, Debug)]
pub struct RoutedEntry {
    /// `personal` or `work`
    pub scope: String,
    /// `project` | `area` | `idea` | `task` | `note`
    pub kind: String,
    pub slug: String,
    pub name: String,
    pub is_new: bool,
    pub title: String,
    pub body: String,
    pub accomplished: Vec<String>,
    pub decisions: Vec<String>,
    pub open: Vec<String>,
    pub due: Option<String>,
}

/// A structural instruction found in a capture: create, rename, move or set
/// the status of a page.
#[derive(Clone, Debug)]
pub struct RoutedAction {
    /// `create_page` | `rename_page` | `move_page` | `set_status`
    pub op: String,
    pub name: String,
    pub kind: String,
    pub scope: String,
    pub slug: String,
    pub parent: String,
    pub status: String,
}

/// The model's answer for one capture.
#[derive(Clone, Debug)]
pub struct TriageResult {
    pub summary: Vec<String>,
    pub entries: Vec<RoutedEntry>,
    pub actions: Vec<RoutedAction>,
}

/// What one triage call is made with.
pub struct TriageRequest<'a> {
    pub provider: &'a str,
    pub api_key: &'a str,
    pub model: &'a str,
    pub effort: &'a str,
    pub date: &'a str,
    pub time: &'a str,
    pub text: &'a str,
    pub projects: &'a [ProjectMeta],
    pub glossary: &'a [String],
    pub profile: &'a str,
}

/// What one overview refresh is made with.
pub struct OverviewRequest<'a> {
    pub provider: &'a str,
    pub api_key: &'a str,
    pub model: &'a str,
    pub effort: &'a str,
    pub title: &'a str,
    /// `project` | `area` | `personal`
    pub kind: &'a str,
    pub page_markdown: &'a str,
}

/// The standing instructions every triage pass starts with.
pub const TRIAGE_RULES: &'static str = "You triage one capture from a personal daybook. The input is raw dictation or pasted \
         text: run-on sentences, false starts, no punctuation, transcription errors, and often \
         several unrelated things in one dump.\n\n\
         Your job is to split the dump into discrete entries and route each one. Three rules:\n\n\
         1. Never invent. Ambiguity stays ambiguous. Empty arrays are correct. A thin dump stays thin.\n\
         2. Preserve their voice in each entry's `body`. Fix transcription, add punctuation and \
         paragraph breaks, drop filler and false starts. Do not upgrade vocabulary or make it sound \
         professional. Keep any markdown image references exactly as written \
         (`![](attachments/...)`) in the entry they belong to — never drop or rewrite those paths.\n\
         3. Split aggressively. One dump that mentions a bug fix, a dentist appointment, and a \
         side idea becomes three entries. Do not stuff unrelated things into one entry.\n\n\
         Scope and destination are independent axes:\n\
         - `scope` is `personal` or `work`.\n\
         - `kind` is where it files:\n\
           - `project` — something with an end state (\"ship the BMX site\").\n\
           - `area` — ongoing responsibility with no end state (health, finances, the house).\n\
           - `idea` — maybe-someday, not actionable yet.\n\
           - `task` — a discrete open action or appointment.\n\
           - `note` — worth keeping on the day, nowhere else (a mood, a random observation).\n\n\
         Match projects/areas against the known list below, including aliases. Speech is loose. \
         If work clearly belongs to something not on the list, create it with a kebab-case slug \
         and set is_new to true. Prefer `area` over inventing a fake project for ongoing life domains.\n\n\
         For project/area entries: fill `accomplished` / `decisions` / `open` when present. \
         Decisions should keep the reason if one was given. For tasks, set `due` to YYYY-MM-DD \
         when a date is clear; otherwise null. `title` is a short label (a few words).\n\n\
         `slug` and `name` are not just for project/area entries. A task or idea that belongs to \
         a project or area must carry that project's `slug` and `name` too — \"still need to write \
         tests for it\" said while discussing the BMX site is a `task` that belongs to `bmx-site`. \
         Leave `slug` and `name` empty only when the entry genuinely belongs to nothing (\"book a \
         dentist appointment\"). This is what lets a task be found from its project later, so do \
         not leave it empty out of caution when the owner is clear from the dump.\n\n\
         `summary` is 1–3 plain glance bullets for the whole dump — the only place you write \
         rather than transcribe.\n\n\
         Respond with a single JSON object matching this schema example:\n";

/// The shape of answer the instructions show the model.
pub const TRIAGE_EXAMPLE: &'static str = r#"{
  "summary": ["Shipped inbox routing for Daybook", "Book dentist next week"],
  "entries": [
    {
      "scope": "work",
      "kind": "project",
      "slug": "daybook",
      "name": "Daybook",
      "is_new": false,
      "title": "Inbox routing",
      "body": "Got the inbox layer wiring so captures split into discrete entries.",
      "accomplished": ["Wired inbox triage"],
      "decisions": [],
      "open": [],
      "due": null
    },
    {
      "scope": "work",
      "kind": "task",
      "slug": "daybook",
      "name": "Daybook",
      "is_new": false,
      "title": "Write tests for the routing",
      "body": "Still need tests around the inbox routing before this is done.",
      "accomplished": [],
      "decisions": [],
      "open": [],
      "due": null
    },
    {
      "scope": "personal",
      "kind": "task",
      "slug": "",
      "name": "",
      "is_new": false,
      "title": "Book dentist",
      "body": "Need to schedule a cleaning next week.",
      "accomplished": [],
      "decisions": [],
      "open": [],
      "due": null
    }
  ]
}"#;

pub const PROFILE_HEAD: &'static str = "Author profile (durable context — do not echo it back):\n";

pub const NO_PROJECTS: &'static str = "Known projects/areas: none configured yet. Infer them from the dump and set is_new.\n\n";

pub const GLOSSARY_HEAD: &'static str = "Glossary. Dictation mangles these constantly. Phonetically close phrases are almost \
     certainly these terms — correct them:\n";

pub const IMAGES_NOTE: &'static str = "\n\nAttached images are included above this message. Read them for context — error \
     screenshots, whiteboards, receipts, etc. — when deciding scope, kind, and routing.";

// ------------------------------------------------------------------ specs

pub open spec fn spec_bullets(items: Seq<Seq<char>>) -> Seq<char>
    decreases items.len(),
{
    if items.len() == 0 {
        seq![]
    } else {
        spec_bullets(items.drop_last()) + "- "@ + trim(items.last()) + "\n"@
    }
}

/// A bold label over its bullets, or nothing when there are none.
pub open spec fn labelled_block(head: Seq<char>, items: Seq<Seq<char>>) -> Seq<char> {
    if items.len() == 0 {
        seq![]
    } else {
        head + spec_bullets(items) + "\n"@
    }
}

/// One entry's section on an entity page.
pub open spec fn spec_render_entity_section(
    title: Seq<char>,
    accomplished: Seq<Seq<char>>,
    decisions: Seq<Seq<char>>,
    open: Seq<Seq<char>>,
    body: Seq<char>,
    date: Seq<char>,
) -> Seq<char> {
    (if is_blank(title) {
        seq![]
    } else {
        "**"@ + trim(title) + "**\n\n"@
    }) + labelled_block("**Accomplished**\n\n"@, accomplished) + labelled_block(
        "**Decided**\n\n"@,
        decisions,
    ) + labelled_block("**Open**\n\n"@, open) + (if is_blank(body) {
        seq![]
    } else {
        trim(body) + "\n\n"@
    }) + "[[days/"@ + date + "]]\n"@
}

/// Where an entry of a kind is filed, as written on the day note.
pub open spec fn spec_destination(kind: Seq<char>, slug: Seq<char>, name: Seq<char>) -> Seq<char> {
    if kind == "project"@ {
        "[[projects/"@ + slug + "|"@ + name + "]]"@
    } else if kind == "area"@ {
        "[[areas/"@ + slug + "|"@ + name + "]]"@
    } else if kind == "idea"@ {
        "ideas"@
    } else if kind == "task"@ {
        "tasks"@
    } else {
        "note"@
    }
}

pub open spec fn day_item_part(e: RoutedEntry) -> Seq<char> {
    "### "@ + e.title@ + " · "@ + e.scope@ + " · "@ + spec_destination(e.kind@, e.slug@, e.name@)
        + "\n\n"@ + (if is_blank(e.body@) {
        seq![]
    } else {
        trim(e.body@) + "\n\n"@
    }) + (if e.kind@ == "task"@ && e.due is Some {
        "Due: "@ + e.due->0@ + "\n\n"@
    } else {
        seq![]
    })
}

/// The body of a capture's section on the day note: one part per entry.
pub open spec fn spec_render_day_item_body(es: Seq<RoutedEntry>) -> Seq<char>
    decreases es.len(),
{
    if es.len() == 0 {
        seq![]
    } else {
        spec_render_day_item_body(es.drop_last()) + day_item_part(es.last())
    }
}

/// The first entry's title, else the first summary bullet (80 characters at
/// most), else `Entry`.
pub open spec fn spec_primary_title(es: Seq<RoutedEntry>, summary: Seq<Seq<char>>) -> Seq<char> {
    if es.len() > 0 && !is_blank(es[0].title@) {
        trim(es[0].title@)
    } else if summary.len() > 0 {
        take_chars(summary[0], 80)
    } else {
        "Entry"@
    }
}

pub open spec fn normal_scope(s: Seq<char>) -> Seq<char> {
    if lowercase(s) == "personal"@ {
        "personal"@
    } else {
        "work"@
    }
}

pub open spec fn normal_kind(k: Seq<char>) -> Seq<char> {
    let l = lowercase(k);
    if l == "area"@ {
        "area"@
    } else if l == "idea"@ {
        "idea"@
    } else if l == "task"@ {
        "task"@
    } else if l == "note"@ {
        "note"@
    } else {
        "project"@
    }
}

/// `b` is `a` brought into shape: scope and kind from the known values,
/// project and area slugs slugified (from the name when blank) and named,
/// and a due date kept only when it is `YYYY-MM-DD`.
pub open spec fn entry_normalized(a: RoutedEntry, b: RoutedEntry) -> bool {
    let kind = normal_kind(a.kind@);
    &&& b.scope@ == normal_scope(a.scope@)
    &&& b.kind@ == kind
    &&& if kind == "project"@ || kind == "area"@ {
        let slug = spec_slugify(
            if is_blank(a.slug@) {
                a.name@
            } else {
                a.slug@
            },
        );
        b.slug@ == slug && b.name@ == (if is_blank(a.name@) {
            slug
        } else {
            a.name@
        })
    } else {
        b.slug == a.slug && b.name == a.name
    }
    &&& b.due == match a.due {
        Some(d) => if naive_date_parse(d@, pat_iso()) is Some {
            Some(d)
        } else {
            None
        },
        None => None,
    }
    &&& b.is_new == a.is_new
    &&& b.title == a.title
    &&& b.body == a.body
    &&& b.accomplished == a.accomplished
    &&& b.decisions == a.decisions
    &&& b.open == a.open
}

/// The JSON inside a reply, without the code fence models sometimes add.
pub open spec fn spec_json_payload(text: Seq<char>) -> Seq<char> {
    let t = trim(text);
    let inner = if starts_with(t, "```json"@) {
        Some(t.skip(7))
    } else if starts_with(t, "```"@) {
        Some(t.skip(3))
    } else {
        None
    };
    match inner {
        Some(x) => trim(
            if crate::text::ends_with(x, "```"@) {
                x.take(x.len() - 3)
            } else {
                x
            },
        ),
        None => t,
    }
}

pub open spec fn key_hint(provider: Seq<char>) -> Seq<char> {
    if provider == "deepseek"@ {
        "DeepSeek API key (or DEEPSEEK_API_KEY)"@
    } else if provider == "anthropic"@ {
        "Anthropic API key (or ANTHROPIC_API_KEY)"@
    } else {
        "OpenAI API key (or OPENAI_API_KEY)"@
    }
}

/// Why a triage call is not made: no key, or nothing to triage.
pub open spec fn spec_triage_refusal(provider: Seq<char>, api_key: Seq<char>, text: Seq<char>) -> Option<
    Seq<char>,
> {
    if api_key.len() == 0 {
        Some("No "@ + key_hint(provider) + " set. Add one in Settings."@)
    } else if is_blank(text) {
        Some("Nothing to triage: capture is empty."@)
    } else {
        None
    }
}

/// A profile line that says nothing: blank, a heading, or a bare dash.
pub open spec fn placeholder_line(l: Seq<char>) -> bool {
    let t = trim(l);
    t.len() == 0 || starts_with(t, "#"@) || t == "-"@
}

pub open spec fn profile_block(profile: Seq<char>) -> Seq<char> {
    let p = trim(profile);
    if p.len() > 0 && !(forall|i: int| 0 <= i < lines(p).len() ==> placeholder_line(#[trigger] lines(p)[i])) {
        PROFILE_HEAD@ + p + "\n\n"@
    } else {
        seq![]
    }
}

pub open spec fn project_line(p: ProjectMeta) -> Seq<char> {
    "- "@ + p.name@ + " (slug: "@ + p.slug@ + ", kind: "@ + p.kind@ + ", scope: "@ + p.scope@
        + ")"@ + (if p.aliases.len() > 0 {
        " [also called: "@ + join(sv(p.aliases@), ", "@) + "]"@
    } else {
        seq![]
    }) + (if p.description@.len() > 0 {
        " — "@ + p.description@
    } else {
        seq![]
    }) + "\n"@
}

pub open spec fn project_lines(ps: Seq<ProjectMeta>) -> Seq<char>
    decreases ps.len(),
{
    if ps.len() == 0 {
        seq![]
    } else {
        project_lines(ps.drop_last()) + project_line(ps.last())
    }
}

pub open spec fn projects_block(ps: Seq<ProjectMeta>) -> Seq<char> {
    if ps.len() == 0 {
        NO_PROJECTS@
    } else {
        "Known projects/areas:\n"@ + project_lines(ps) + "\n"@
    }
}

pub open spec fn glossary_lines(gs: Seq<Seq<char>>) -> Seq<char>
    decreases gs.len(),
{
    if gs.len() == 0 {
        seq![]
    } else {
        glossary_lines(gs.drop_last()) + "- "@ + gs.last() + "\n"@
    }
}

pub open spec fn glossary_block(gs: Seq<Seq<char>>) -> Seq<char> {
    if gs.len() == 0 {
        seq![]
    } else {
        GLOSSARY_HEAD@ + glossary_lines(gs) + "\n"@
    }
}

/// The instructions, then the author's profile, the known pages and the
/// glossary, each only when there is something to say.
pub open spec fn spec_system_prompt(ps: Seq<ProjectMeta>, gs: Seq<Seq<char>>, profile: Seq<char>) -> Seq<
    char,
> {
    TRIAGE_RULES@ + TRIAGE_EXAMPLE@ + "\n\n"@ + profile_block(profile) + projects_block(ps)
        + glossary_block(gs)
}

pub open spec fn spec_user_prompt(date: Seq<char>, time: Seq<char>, text: Seq<char>, has_images: bool) -> Seq<
    char,
> {
    "Triage this capture from "@ + date + " at "@ + time
        + ". Split it into discrete entries and route each one. Return JSON only.\n\n<raw>\n"@ + trim(text)
        + "\n</raw>"@ + if has_images {
        IMAGES_NOTE@
    } else {
        seq![]
    }
}

/// The reasoning effort an OpenAI model is asked for.
pub open spec fn spec_reasoning_effort(effort: Seq<char>) -> Seq<char> {
    if effort == "low"@ || effort == "minimal"@ || effort == "none"@ {
        "low"@
    } else if effort == "high"@ || effort == "xhigh"@ || effort == "max"@ {
        "high"@
    } else {
        "medium"@
    }
}

pub open spec fn spec_overview_system(kind: Seq<char>, title: Seq<char>) -> Seq<char> {
    "You maintain the standing Overview section of a "@ + kind + " page named \""@ + title
        + "\" in a personal daybook.\n\n"@ + OVERVIEW_RULES@
}

pub open spec fn spec_overview_user(page: Seq<char>) -> Seq<char> {
    "Rewrite the Overview for this page. Return bullets only.\n\n<page>\n"@ + trim(page)
        + "\n</page>"@
}

/// An overview reply without fences or a repeated heading.
pub open spec fn spec_clean_overview(text: Seq<char>) -> Seq<char> {
    let c = trim(
        crate::names::trim_end_all(
            crate::names::trim_start_all(
                crate::names::trim_start_all(
                    crate::names::trim_start_all(trim(text), "```markdown"@),
                    "```md"@,
                ),
                "```"@,
            ),
            "```"@,
        ),
    );
    trim(
        if starts_with(c, "## Overview"@) {
            c.skip(11)
        } else if starts_with(c, "# Overview"@) {
            c.skip(10)
        } else {
            c
        },
    )
}

// ------------------------------------------------------------------ exec

/// Bullets, one per item, each trimmed.
pub fn bullets(items: &Vec<String>) -> (r: Vec<char>)
    ensures
        r@ == spec_bullets(sv(items@)),
{
    let mut out: Vec<char> = Vec::new();
    let mut i: usize = 0;
    while i < items.len()
        invariant
            0 <= i <= items.len(),
            out@ == spec_bullets(sv(items@).take(i as int)),
        decreases items.len() - i,
    {
        proof {
            assert(sv(items@).take(i + 1).drop_last() =~= sv(items@).take(i as int));
            assert(sv(items@).take(i + 1).last() == items@[i as int]@);
        }
        push_str(&mut out, "- ");
        let c = chars_of(items[i].as_str());
        let t = trim_exec(&c);
        push_all(&mut out, &t);
        push_str(&mut out, "\n");
        i += 1;
    }
    proof {
        assert(sv(items@).take(items.len() as int) =~= sv(items@));
    }
    out
}

fn push_block(out: &mut Vec<char>, head: &str, items: &Vec<String>)
    ensures
        final(out)@ == old(out)@ + labelled_block(head@, sv(items@)),
{
    if items.len() > 0 {
        push_str(out, head);
        let b = bullets(items);
        push_all(out, &b);
        push_str(out, "\n");
    }
}

/// One entry's section on an entity page: title, what was accomplished,
/// decided and left open, the body, and a link back to the day.
pub fn render_entity_section(e: &RoutedEntry, date: &str) -> (r: String)
    ensures
        r@ == spec_render_entity_section(
            e.title@,
            sv(e.accomplished@),
            sv(e.decisions@),
            sv(e.open@),
            e.body@,
            date@,
        ),
{
    let mut out: Vec<char> = Vec::new();
    let tc = chars_of(e.title.as_str());
    if !is_blank_exec(&tc) {
        push_str(&mut out, "**");
        let t = trim_exec(&tc);
        push_all(&mut out, &t);
        push_str(&mut out, "**\n\n");
    }
    push_block(&mut out, "**Accomplished**\n\n", &e.accomplished);
    push_block(&mut out, "**Decided**\n\n", &e.decisions);
    push_block(&mut out, "**Open**\n\n", &e.open);
    let bc = chars_of(e.body.as_str());
    if !is_blank_exec(&bc) {
        let b = trim_exec(&bc);
        push_all(&mut out, &b);
        push_str(&mut out, "\n\n");
    }
    push_str(&mut out, "[[days/");
    push_str(&mut out, date);
    push_str(&mut out, "]]\n");
    proof {
        assert(out@ =~= spec_render_entity_section(
            e.title@,
            sv(e.accomplished@),
            sv(e.decisions@),
            sv(e.open@),
            e.body@,
            date@,
        ));
    }
    to_string(&out)
}

/// Where an entry of a kind is filed, as written on the day note.
pub fn destination(kind: &str, slug: &str, name: &str) -> (r: String)
    ensures
        r@ == spec_destination(kind@, slug@, name@),
{
    let kc = chars_of(kind);
    let mut out: Vec<char> = Vec::new();
    if crate::text::eq_str(&kc, "project") {
        push_str(&mut out, "[[projects/");
        push_str(&mut out, slug);
        push_str(&mut out, "|");
        push_str(&mut out, name);
        push_str(&mut out, "]]");
    } else if crate::text::eq_str(&kc, "area") {
        push_str(&mut out, "[[areas/");
        push_str(&mut out, slug);
        push_str(&mut out, "|");
        push_str(&mut out, name);
        push_str(&mut out, "]]");
    } else if crate::text::eq_str(&kc, "idea") {
        push_str(&mut out, "ideas");
    } else if crate::text::eq_str(&kc, "task") {
        push_str(&mut out, "tasks");
    } else {
        push_str(&mut out, "note");
    }
    to_string(&out)
}

/// The body of a capture's section on the day note.
#[verifier::spinoff_prover]
#[verifier::rlimit(30)]
pub fn render_day_item_body(entries: &[RoutedEntry]) -> (r: String)
    ensures
        r@ == spec_render_day_item_body(entries@),
{
    let mut out: Vec<char> = Vec::new();
    let mut i: usize = 0;
    while i < entries.len()
        invariant
            0 <= i <= entries.len(),
            out@ == spec_render_day_item_body(entries@.take(i as int)),
        decreases entries.len() - i,
    {
        proof {
            assert(entries@.take(i + 1).drop_last() =~= entries@.take(i as int));
        }
        let e = &entries[i];
        let ghost before = out@;
        push_str(&mut out, "### ");
        push_str(&mut out, e.title.as_str());
        push_str(&mut out, " · ");
        push_str(&mut out, e.scope.as_str());
        push_str(&mut out, " · ");
        let d = destination(e.kind.as_str(), e.slug.as_str(), e.name.as_str());
        push_str(&mut out, d.as_str());
        push_str(&mut out, "\n\n");
        let bc = chars_of(e.body.as_str());
        if !is_blank_exec(&bc) {
            let b = trim_exec(&bc);
            push_all(&mut out, &b);
            push_str(&mut out, "\n\n");
        }
        let kc = chars_of(e.kind.as_str());
        if crate::text::eq_str(&kc, "task") {
            match &e.due {
                Some(due) => {
                    push_str(&mut out, "Due: ");
                    push_str(&mut out, due.as_str());
                    push_str(&mut out, "\n\n");
                },
                None => {},
            }
        }
        proof {
            assert(out@ =~= before + day_item_part(entries@[i as int]));
        }
        i += 1;
    }
    proof {
        assert(entries@.take(entries.len() as int) =~= entries@);
    }
    to_string(&out)
}

/// The title a capture's day-note section gets.
pub fn primary_title(entries: &[RoutedEntry], summary: &[String]) -> (r: String)
    ensures
        r@ == spec_primary_title(entries@, sv(summary@)),
{
    if entries.len() > 0 {
        let tc = chars_of(entries[0].title.as_str());
        if !is_blank_exec(&tc) {
            return to_string(&trim_exec(&tc));
        }
    }
    if summary.len() > 0 {
        let sc = chars_of(summary[0].as_str());
        proof {
            assert(sv(summary@)[0] == summary@[0]@);
        }
        return to_string(&take_chars_exec(&sc, 80));
    }
    "Entry".to_string()
}

fn normalize_entry(e: RoutedEntry) -> (r: RoutedEntry)
    ensures
        entry_normalized(e, r),
{
    let ghost old_e = e;
    let RoutedEntry {
        scope,
        kind,
        slug,
        name,
        is_new,
        title,
        body,
        accomplished,
        decisions,
        open,
        due,
    } = e;
    let ls = to_lowercase(scope.as_str());
    let lsc = chars_of(ls.as_str());
    let scope = if crate::text::eq_str(&lsc, "personal") {
        "personal".to_string()
    } else {
        "work".to_string()
    };
    let lk = to_lowercase(kind.as_str());
    let lkc = chars_of(lk.as_str());
    let kind = if crate::text::eq_str(&lkc, "area") {
        "area".to_string()
    } else if crate::text::eq_str(&lkc, "idea") {
        "idea".to_string()
    } else if crate::text::eq_str(&lkc, "task") {
        "task".to_string()
    } else if crate::text::eq_str(&lkc, "note") {
        "note".to_string()
    } else {
        "project".to_string()
    };
    let kc = chars_of(kind.as_str());
    let (slug, name) = if crate::text::eq_str(&kc, "project") || crate::text::eq_str(&kc, "area") {
        let sc = chars_of(slug.as_str());
        let new_slug = if is_blank_exec(&sc) {
            slugify(name.as_str())
        } else {
            slugify(slug.as_str())
        };
        let nc = chars_of(name.as_str());
        let new_name = if is_blank_exec(&nc) {
            new_slug.clone()
        } else {
            name
        };
        (new_slug, new_name)
    } else {
        (slug, name)
    };
    let due = match due {
        Some(d) => match valid_date(d.as_str()) {
            Ok(_) => Some(d),
            Err(_) => None,
        },
        None => None,
    };
    RoutedEntry { scope, kind, slug, name, is_new, title, body, accomplished, decisions, open, due }
}

/// Bring a model's answer into shape, entry by entry (see
/// `entry_normalized`); the summary and actions are kept as they are.
pub fn normalize_result(result: TriageResult) -> (r: TriageResult)
    ensures
        r.summary == result.summary,
        r.actions == result.actions,
        r.entries.len() == result.entries.len(),
        forall|i: int|
            0 <= i < result.entries.len() ==> entry_normalized(
                #[trigger] result.entries@[i],
                r.entries@[i],
            ),
{
    let TriageResult { summary, entries, actions } = result;
    let ghost a = entries@;
    let mut out: Vec<RoutedEntry> = Vec::new();
    for e in it: entries.into_iter()
        invariant
            it.seq() == a,
            out.len() == it.index(),
            forall|i: int| 0 <= i < it.index() ==> entry_normalized(#[trigger] a[i], out@[i]),
    {
        let n = normalize_entry(e);
        out.push(n);
    }
    TriageResult { summary, entries: out, actions }
}

/// The JSON inside a reply, without a surrounding code fence.
pub fn json_payload(text: &str) -> (r: String)
    ensures
        r@ == spec_json_payload(text@),
{
    let tc = chars_of(text);
    let t = trim_exec(&tc);
    let inner = if starts_with_str(&t, "```json") {
        proof {
            reveal_strlit("```json");
        }
        Some(crate::text::slice_of(&t, 7, t.len()))
    } else if starts_with_str(&t, "```") {
        proof {
            reveal_strlit("```");
        }
        Some(crate::text::slice_of(&t, 3, t.len()))
    } else {
        None
    };
    match inner {
        Some(x) => {
            let y = if crate::text::ends_with_str(&x, "```") {
                proof {
                    reveal_strlit("```");
                }
                crate::text::slice_of(&x, 0, x.len() - 3)
            } else {
                x
            };
            to_string(&trim_exec(&y))
        },
        None => to_string(&t),
    }
}

/// Why a triage call is not made, if it is not.
pub fn triage_refusal(req: &TriageRequest) -> (r: Option<String>)
    ensures
        r matches Some(m) ==> spec_triage_refusal(req.provider@, req.api_key@, req.text@) == Some(
            m@,
        ),
        r is None ==> spec_triage_refusal(req.provider@, req.api_key@, req.text@) is None,
{
    let kc = chars_of(req.api_key);
    if kc.len() == 0 {
        let pc = chars_of(req.provider);
        let hint = if crate::text::eq_str(&pc, "deepseek") {
            "DeepSeek API key (or DEEPSEEK_API_KEY)"
        } else if crate::text::eq_str(&pc, "anthropic") {
            "Anthropic API key (or ANTHROPIC_API_KEY)"
        } else {
            "OpenAI API key (or OPENAI_API_KEY)"
        };
        let mut out: Vec<char> = Vec::new();
        push_str(&mut out, "No ");
        push_str(&mut out, hint);
        push_str(&mut out, " set. Add one in Settings.");
        return Some(to_string(&out));
    }
    let tc = chars_of(req.text);
    if is_blank_exec(&tc) {
        return Some("Nothing to triage: capture is empty.".to_string());
    }
    None
}

fn placeholder_line_exec(l: &[char]) -> (r: bool)
    ensures
        r == placeholder_line(l@),
{
    let t = trim_exec(l);
    t.len() == 0 || starts_with_str(&t, "#") || crate::text::eq_str(&t, "-")
}

fn push_profile(out: &mut Vec<char>, profile: &str)
    ensures
        final(out)@ == old(out)@ + profile_block(profile@),
{
    let pc = chars_of(profile);
    let p = trim_exec(&pc);
    if p.len() == 0 {
        return;
    }
    let ls = crate::text::split_lines(&p);
    let mut all_placeholders = true;
    let mut i: usize = 0;
    while i < ls.len()
        invariant
            0 <= i <= ls.len(),
            vv(ls@) == lines(p@),
            all_placeholders <==> forall|j: int| 0 <= j < i ==> placeholder_line(#[trigger] lines(p@)[j]),
        decreases ls.len() - i,
    {
        proof {
            assert(lines(p@)[i as int] == ls@[i as int]@);
        }
        if !placeholder_line_exec(&ls[i]) {
            all_placeholders = false;
        }
        i += 1;
    }
    if !all_placeholders {
        push_str(out, PROFILE_HEAD);
        push_all(out, &p);
        push_str(out, "\n\n");
    }
}

fn push_joined(out: &mut Vec<char>, items: &Vec<String>, sep: &str)
    ensures
        final(out)@ == old(out)@ + join(sv(items@), sep@),
{
    let ghost start = out@;
    let mut i: usize = 0;
    while i < items.len()
        invariant
            0 <= i <= items.len(),
            out@ == start + join(sv(items@).take(i as int), sep@),
        decreases items.len() - i,
    {
        proof {
            let t = sv(items@).take(i + 1);
            assert(t.drop_last() =~= sv(items@).take(i as int));
            assert(t.last() == items@[i as int]@);
            if i == 0 {
                assert(t =~= seq![items@[0]@]);
            }
        }
        if i > 0 {
            push_str(out, sep);
        }
        push_str(out, items[i].as_str());
        proof {
            assert(out@ =~= start + join(sv(items@).take(i + 1), sep@));
        }
        i += 1;
    }
    proof {
        assert(sv(items@).take(items.len() as int) =~= sv(items@));
    }
}

/// The standing instructions plus what the model should know about the
/// author, their pages and their jargon.
pub fn system_prompt(projects: &[ProjectMeta], glossary: &[String], profile: &str) -> (r: String)
    ensures
        r@ == spec_system_prompt(projects@, sv(glossary@), profile@),
{
    let mut out: Vec<char> = Vec::new();
    push_str(&mut out, TRIAGE_RULES);
    push_str(&mut out, json_example());
    push_str(&mut out, "\n\n");
    push_profile(&mut out, profile);
    if projects.len() == 0 {
        push_str(&mut out, NO_PROJECTS);
    } else {
        push_str(&mut out, "Known projects/areas:\n");
        let ghost head = out@;
        let mut i: usize = 0;
        while i < projects.len()
            invariant
                0 <= i <= projects.len(),
                out@ == head + project_lines(projects@.take(i as int)),
            decreases projects.len() - i,
        {
            proof {
                assert(projects@.take(i + 1).drop_last() =~= projects@.take(i as int));
            }
            let p = &projects[i];
            let ghost before = out@;
            push_str(&mut out, "- ");
            push_str(&mut out, p.name.as_str());
            push_str(&mut out, " (slug: ");
            push_str(&mut out, p.slug.as_str());
            push_str(&mut out, ", kind: ");
            push_str(&mut out, p.kind.as_str());
            push_str(&mut out, ", scope: ");
            push_str(&mut out, p.scope.as_str());
            push_str(&mut out, ")");
            if p.aliases.len() > 0 {
                push_str(&mut out, " [also called: ");
                push_joined(&mut out, &p.aliases, ", ");
                push_str(&mut out, "]");
            }
            let dc = chars_of(p.description.as_str());
            if dc.len() > 0 {
                push_str(&mut out, " — ");
                push_str(&mut out, p.description.as_str());
            }
            push_str(&mut out, "\n");
            proof {
                assert(out@ =~= before + project_line(projects@[i as int]));
            }
            i += 1;
        }
        proof {
            assert(projects@.take(projects.len() as int) =~= projects@);
        }
        push_str(&mut out, "\n");
    }
    if glossary.len() > 0 {
        push_str(&mut out, GLOSSARY_HEAD);
        let ghost head = out@;
        let mut i: usize = 0;
        while i < glossary.len()
            invariant
                0 <= i <= glossary.len(),
                out@ == head + glossary_lines(sv(glossary@).take(i as int)),
            decreases glossary.len() - i,
        {
            proof {
                assert(sv(glossary@).take(i + 1).drop_last() =~= sv(glossary@).take(i as int));
                assert(sv(glossary@).take(i + 1).last() == glossary@[i as int]@);
            }
            push_str(&mut out, "- ");
            push_str(&mut out, glossary[i].as_str());
            push_str(&mut out, "\n");
            i += 1;
        }
        proof {
            assert(sv(glossary@).take(glossary.len() as int) =~= sv(glossary@));
        }
        push_str(&mut out, "\n");
    }
    proof {
        assert(out@ =~= spec_system_prompt(projects@, sv(glossary@), profile@));
    }
    to_string(&out)
}

/// The answer shape the instructions show.
pub fn json_example() -> (r: &'static str)
    ensures
        r@ == TRIAGE_EXAMPLE@,
{
    TRIAGE_EXAMPLE
}

/// The message a capture is sent in.
pub fn user_prompt(date: &str, time: &str, text: &str, has_images: bool) -> (r: String)
    ensures
        r@ == spec_user_prompt(date@, time@, text@, has_images),
{
    let mut out: Vec<char> = Vec::new();
    push_str(&mut out, "Triage this capture from ");
    push_str(&mut out, date);
    push_str(&mut out, " at ");
    push_str(&mut out, time);
    push_str(
        &mut out,
        ". Split it into discrete entries and route each one. Return JSON only.\n\n<raw>\n",
    );
    let tc = chars_of(text);
    let t = trim_exec(&tc);
    push_all(&mut out, &t);
    push_str(&mut out, "\n</raw>");
    if has_images {
        push_str(&mut out, IMAGES_NOTE);
    }
    proof {
        assert(out@ =~= spec_user_prompt(date@, time@, text@, has_images));
    }
    to_string(&out)
}

/// The reasoning effort an OpenAI model is asked for.
pub fn reasoning_effort(effort: &str) -> (r: &'static str)
    ensures
        r@ == spec_reasoning_effort(effort@),
{
    let e = chars_of(effort);
    if crate::text::eq_str(&e, "low") || crate::text::eq_str(&e, "minimal") || crate::text::eq_str(
        &e,
        "none",
    ) {
        "low"
    } else if crate::text::eq_str(&e, "high") || crate::text::eq_str(&e, "xhigh")
        || crate::text::eq_str(&e, "max") {
        "high"
    } else {
        "medium"
    }
}

/// The rules an overview refresh is given.
pub const OVERVIEW_RULES: &'static str = "Rules:\n\
     1. Output ONLY the Overview body as markdown bullets (3–8 lines). No heading, no dated \
     history sections, no preamble.\n\
     2. Summarize what is currently true: status, open threads, recent progress, important \
     decisions. Prefer current state over a full chronology.\n\
     3. Never invent. If the page is thin, write a thin overview.\n\
     4. Keep the author's vocabulary; do not make it corporate.\n\
     5. Ignore attachments paths; focus on the written content.\n";

/// The instructions for rewriting a page's Overview.
pub fn overview_system(req: &OverviewRequest) -> (r: String)
    ensures
        r@ == spec_overview_system(req.kind@, req.title@),
{
    let mut out: Vec<char> = Vec::new();
    push_str(&mut out, "You maintain the standing Overview section of a ");
    push_str(&mut out, req.kind);
    push_str(&mut out, " page named \"");
    push_str(&mut out, req.title);
    push_str(&mut out, "\" in a personal daybook.\n\n");
    push_str(&mut out, OVERVIEW_RULES);
    to_string(&out)
}

/// The message a page is sent in for its Overview.
pub fn overview_user(req: &OverviewRequest) -> (r: String)
    ensures
        r@ == spec_overview_user(req.page_markdown@),
{
    let mut out: Vec<char> = Vec::new();
    push_str(&mut out, "Rewrite the Overview for this page. Return bullets only.\n\n<page>\n");
    let pc = chars_of(req.page_markdown);
    let t = trim_exec(&pc);
    push_all(&mut out, &t);
    push_str(&mut out, "\n</page>");
    to_string(&out)
}

/// An overview refresh needs a key.
pub fn overview_refusal(req: &OverviewRequest) -> (r: Option<String>)
    ensures
        r matches Some(m) ==> req.api_key@.len() == 0 && m@ == "No API key set for overview refresh."@,
        r is None ==> req.api_key@.len() > 0,
{
    let kc = chars_of(req.api_key);
    if kc.len() == 0 {
        Some("No API key set for overview refresh.".to_string())
    } else {
        None
    }
}

/// An overview reply cleaned for the page: fences and a repeated heading
/// dropped. Empty text is refused.
pub fn clean_overview(text: &str) -> (r: Result<String, String>)
    ensures
        r matches Ok(c) ==> c@ == spec_clean_overview(text@) && c@.len() > 0,
        r matches Err(e) ==> spec_clean_overview(text@).len() == 0
            && e@ == "Overview refresh returned empty text."@,
{
    let tc = chars_of(text);
    let t = trim_exec(&tc);
    let a = crate::names::trim_start_all_exec(&t, "```markdown");
    let b = crate::names::trim_start_all_exec(&a, "```md");
    let c = crate::names::trim_start_all_exec(&b, "```");
    let d = crate::names::trim_end_all_exec(&c, "```");
    let e = trim_exec(&d);
    let f = if starts_with_str(&e, "## Overview") {
        proof {
            reveal_strlit("## Overview");
        }
        crate::text::slice_of(&e, 11, e.len())
    } else if starts_with_str(&e, "# Overview") {
        proof {
            reveal_strlit("# Overview");
        }
        crate::text::slice_of(&e, 10, e.len())
    } else {
        e
    };
    let g = trim_exec(&f);
    if g.len() == 0 {
        return Err("Overview refresh returned empty text.".to_string());
    }
    Ok(to_string(&g))
}


/// The glossary file's terms: each line trimmed, blank lines and `#`
/// comments left out.
pub open spec fn spec_glossary_terms(ls: Seq<Seq<char>>) -> Seq<Seq<char>>
    decreases ls.len(),
{
    if ls.len() == 0 {
        seq![]
    } else {
        let rest = spec_glossary_terms(ls.drop_last());
        let t = trim(ls.last());
        if t.len() > 0 && !starts_with(t, "#"@) {
            rest.push(t)
        } else {
            rest
        }
    }
}

pub fn glossary_terms(text: &str) -> (r: Vec<String>)
    ensures
        sv(r@) == spec_glossary_terms(lines(text@)),
{
    let ls = lines_of(text);
    let ghost g = vv(ls@);
    let mut out: Vec<String> = Vec::new();
    let mut i: usize = 0;
    while i < ls.len()
        invariant
            0 <= i <= ls.len(),
            g == vv(ls@),
            g == lines(text@),
            sv(out@) == spec_glossary_terms(g.take(i as int)),
        decreases ls.len() - i,
    {
        proof {
            assert(g.take(i + 1).drop_last() =~= g.take(i as int));
            assert(g.take(i + 1).last() == ls@[i as int]@);
        }
        let t = trim_exec(&ls[i]);
        if t.len() > 0 && !starts_with_str(&t, "#") {
            let ghost before = sv(out@);
            out.push(to_string(&t));
            proof {
                assert(sv(out@) =~= before.push(t@));
            }
        }
        i += 1;
    }
    proof {
        assert(g.take(ls.len() as int) =~= g);
    }
    out
}

/// Normalizing keeps every known kind: an entry whose kind lowercases to
/// `project`, `area`, `idea`, `task` or `note` comes out with that kind, and
/// any other kind is filed as a project.
pub proof fn law_known_kinds_are_kept(a: RoutedEntry, b: RoutedEntry)
    requires
        entry_normalized(a, b),
    ensures
        lowercase(a.kind@) == "project"@ ==> b.kind@ == "project"@,
        lowercase(a.kind@) == "area"@ ==> b.kind@ == "area"@,
        lowercase(a.kind@) == "idea"@ ==> b.kind@ == "idea"@,
        lowercase(a.kind@) == "task"@ ==> b.kind@ == "task"@,
        lowercase(a.kind@) == "note"@ ==> b.kind@ == "note"@,
        lowercase(a.kind@) != "area"@ && lowercase(a.kind@) != "idea"@ && lowercase(a.kind@) != "task"@
            && lowercase(a.kind@) != "note"@ ==> b.kind@ == "project"@,
{
    reveal_strlit("project");
    reveal_strlit("area");
    reveal_strlit("idea");
    reveal_strlit("task");
    reveal_strlit("note");
}


/// Normalizing brings an entry's scope to `personal` exactly when it
/// lowercases to `personal`, and to `work` otherwise; it keeps the title,
/// the body and the three lists; it keeps a due date only when it is a
/// `YYYY-MM-DD` date; and it gives a project or area entry the slug of its
/// slug, or of its name when the slug is blank.
pub proof fn law_normalized_entry_fields(a: RoutedEntry, b: RoutedEntry)
    requires
        entry_normalized(a, b),
    ensures
        lowercase(a.scope@) == "personal"@ ==> b.scope@ == "personal"@,
        lowercase(a.scope@) != "personal"@ ==> b.scope@ == "work"@,
        b.title == a.title && b.body == a.body,
        b.accomplished == a.accomplished && b.decisions == a.decisions && b.open == a.open,
        (a.due matches Some(d) && naive_date_parse(d@, pat_iso()) is Some) ==> b.due == a.due,
        (a.due matches Some(d) && naive_date_parse(d@, pat_iso()) is None) ==> b.due is None,
        a.due is None ==> b.due is None,
        (lowercase(a.kind@) == "project"@ || lowercase(a.kind@) == "area"@) && !is_blank(a.slug@) ==> b.slug@
            == spec_slugify(a.slug@),
        (lowercase(a.kind@) == "project"@ || lowercase(a.kind@) == "area"@) && is_blank(a.slug@) ==> b.slug@
            == spec_slugify(a.name@),
        lowercase(a.kind@) == "idea"@ || lowercase(a.kind@) == "task"@ || lowercase(a.kind@) == "note"@ ==> b.slug
            == a.slug,
{
    reveal_strlit("project");
    reveal_strlit("area");
    reveal_strlit("idea");
    reveal_strlit("task");
    reveal_strlit("note");
    reveal_strlit("personal");
    reveal_strlit("work");
    assert("project"@.len() == 7 && "area"@.len() == 4 && "idea"@.len() == 4 && "task"@.len() == 4
        && "note"@.len() == 4);
    assert("area"@[0] != "idea"@[0] && "area"@[0] != "task"@[0] && "area"@[0] != "note"@[0]);
}

} // verus!
