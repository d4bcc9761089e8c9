//! What an external assistant is told: entries and pages as plain lines.
use crate::entries::EntryView;
use crate::actions::{find_slug, find_slug_exec, pms};
use crate::projects::{ProjectEntry, ProjectMeta};
use crate::text::{chars_of, is_blank, is_blank_exec, join, push_all, push_str, sv, to_string};
use vstd::prelude::*;

verus! {

pub open spec fn owner_bit(r: crate::entries::EntryRecord) -> Seq<char> {
    if r.slug@.len() > 0 {
        " · "@ + if is_blank(r.name@) {
            r.slug@
        } else {
            r.name@
        }
    } else {
        seq![]
    }
}

pub open spec fn state_bit(e: EntryView) -> Seq<char> {
    if e.record.kind@ == "task"@ {
        if e.done {
            " · done"@
        } else {
            " · open"@
        }
    } else {
        seq![]
    }
}

pub open spec fn list_bit(head: Seq<char>, items: Seq<String>) -> Seq<char> {
    if items.len() > 0 {
        head + join(sv(items), "; "@) + "\n"@
    } else {
        seq![]
    }
}

/// One entry: `[date] kind · title · owner · state · id=…`, then its open
/// loops and decisions.
pub open spec fn entry_line(e: EntryView) -> Seq<char> {
    let r = e.record;
    "["@ + r.date@ + "] "@ + r.kind@ + " · "@ + r.title@ + owner_bit(r) + state_bit(e) + " · id="@
        + r.id@ + "\n"@ + list_bit("    open: "@, r.open@) + list_bit("    decided: "@, r.decisions@)
}

pub open spec fn entry_lines(es: Seq<EntryView>) -> Seq<char>
    decreases es.len(),
{
    if es.len() == 0 {
        seq![]
    } else {
        entry_lines(es.drop_last()) + entry_line(es.last())
    }
}

pub open spec fn spec_search_results_text(es: Seq<EntryView>) -> Seq<char> {
    if es.len() == 0 {
        "No matching entries."@
    } else {
        entry_lines(es)
    }
}

pub open spec fn project_line(p: ProjectEntry) -> Seq<char> {
    p.name@ + " ("@ + p.slug@ + ") · "@ + p.kind@ + " · "@ + p.status@ + " · "@ + p.scope@ + "\n"@
}

pub open spec fn project_lines(ps: Seq<ProjectEntry>) -> Seq<char>
    decreases ps.len(),
{
    if ps.len() == 0 {
        seq![]
    } else {
        project_lines(ps.drop_last()) + project_line(ps.last())
    }
}

pub open spec fn spec_project_list_text(ps: Seq<ProjectEntry>) -> Seq<char> {
    if ps.len() == 0 {
        "No projects yet."@
    } else {
        project_lines(ps)
    }
}

fn push_joined(out: &mut Vec<char>, items: &Vec<String>, sep: &str)
    ensures
        final(out)@ == old(out)@ + join(sv(items@), sep@),
{
    let ghost start = out@;
    let mut i: usize = 0;
    while i < items.len()
        invariant
            0 <= i <= items.len(),
            out@ == start + join(sv(items@).take(i as int), sep@),
        decreases items.len() - i,
    {
        proof {
            let t = sv(items@).take(i + 1);
            assert(t.drop_last() =~= sv(items@).take(i as int));
            assert(t.last() == items@[i as int]@);
            if i == 0 {
                assert(t =~= seq![items@[0]@]);
            }
        }
        if i > 0 {
            push_str(out, sep);
        }
        push_str(out, items[i].as_str());
        proof {
            assert(out@ =~= start + join(sv(items@).take(i + 1), sep@));
        }
        i += 1;
    }
    proof {
        assert(sv(items@).take(items.len() as int) =~= sv(items@));
    }
}

fn push_list_bit(out: &mut Vec<char>, head: &str, items: &Vec<String>)
    ensures
        final(out)@ == old(out)@ + list_bit(head@, items@),
{
    if items.len() > 0 {
        push_str(out, head);
        push_joined(out, items, "; ");
        push_str(out, "\n");
    }
}

fn push_owner_state(out: &mut Vec<char>, e: &EntryView)
    ensures
        final(out)@ == old(out)@ + owner_bit(e.record) + state_bit(*e),
{
    let r = &e.record;
    let ghost start = out@;
    let sc = chars_of(r.slug.as_str());
    if sc.len() > 0 {
        push_str(out, " · ");
        let nc = chars_of(r.name.as_str());
        if is_blank_exec(&nc) {
            push_all(out, &sc);
        } else {
            push_all(out, &nc);
        }
    }
    let ghost mid = out@;
    proof {
        assert(mid =~= start + owner_bit(e.record));
    }
    let kc = chars_of(r.kind.as_str());
    if crate::text::eq_str(&kc, "task") {
        if e.done {
            push_str(out, " · done");
        } else {
            push_str(out, " · open");
        }
    }
    proof {
        assert(out@ =~= mid + state_bit(*e));
    }
}

fn push_entry_line(out: &mut Vec<char>, e: &EntryView)
    ensures
        final(out)@ == old(out)@ + entry_line(*e),
{
    let ghost before = out@;
    let r = &e.record;
    push_str(out, "[");
    push_str(out, r.date.as_str());
    push_str(out, "] ");
    push_str(out, r.kind.as_str());
    push_str(out, " · ");
    push_str(out, r.title.as_str());
    push_owner_state(out, e);
    push_str(out, " · id=");
    push_str(out, r.id.as_str());
    push_str(out, "\n");
    push_list_bit(out, "    open: ", &r.open);
    push_list_bit(out, "    decided: ", &r.decisions);
    proof {
        assert(out@ =~= before + entry_line(*e));
    }
}

/// Entries as an assistant reads them: one line each (date, kind, title,
/// owner, a task's state, id), with open loops and decisions beneath.
pub fn search_results_text(found: &[EntryView]) -> (r: String)
    ensures
        r@ == spec_search_results_text(found@),
{
    if found.len() == 0 {
        return "No matching entries.".to_string();
    }
    let mut out: Vec<char> = Vec::new();
    let mut i: usize = 0;
    while i < found.len()
        invariant
            0 <= i <= found.len(),
            out@ == entry_lines(found@.take(i as int)),
        decreases found.len() - i,
    {
        proof {
            assert(found@.take(i + 1).drop_last() =~= found@.take(i as int));
            assert(found@.take(i + 1).last() == found@[i as int]);
        }
        push_entry_line(&mut out, &found[i]);
        i += 1;
    }
    proof {
        assert(found@.take(found.len() as int) =~= found@);
    }
    to_string(&out)
}

/// Pages as an assistant reads them: name, slug, kind, status, scope.
pub fn project_list_text(projects: &[ProjectEntry]) -> (r: String)
    ensures
        r@ == spec_project_list_text(projects@),
{
    if projects.len() == 0 {
        return "No projects yet.".to_string();
    }
    let mut out: Vec<char> = Vec::new();
    let mut i: usize = 0;
    while i < projects.len()
        invariant
            0 <= i <= projects.len(),
            out@ == project_lines(projects@.take(i as int)),
        decreases projects.len() - i,
    {
        proof {
            assert(projects@.take(i + 1).drop_last() =~= projects@.take(i as int));
            assert(projects@.take(i + 1).last() == projects@[i as int]);
        }
        let ghost before = out@;
        let p = &projects[i];
        push_str(&mut out, p.name.as_str());
        push_str(&mut out, " (");
        push_str(&mut out, p.slug.as_str());
        push_str(&mut out, ") · ");
        push_str(&mut out, p.kind.as_str());
        push_str(&mut out, " · ");
        push_str(&mut out, p.status.as_str());
        push_str(&mut out, " · ");
        push_str(&mut out, p.scope.as_str());
        push_str(&mut out, "\n");
        proof {
            assert(out@ =~= before + project_line(projects@[i as int]));
        }
        i += 1;
    }
    proof {
        assert(projects@.take(projects.len() as int) =~= projects@);
    }
    to_string(&out)
}


/// Refusal when a capture sent by an assistant is blank.
pub const NOTHING_TO_CAPTURE: &'static str = "Nothing to capture.";

/// Refusal when text to append is blank.
pub const NOTHING_TO_APPEND: &'static str = "Nothing to append.";

/// Refusal when a page to create has no name.
pub const PAGE_NEEDS_NAME: &'static str = "A page needs a name.";

/// Reply when a page to read is empty or missing.
pub const PAGE_MISSING: &'static str = "That page is empty or does not exist.";

/// The kind of page an assistant names: `area`, or else `project`.
pub fn page_kind(kind: &str) -> (r: &'static str)
    ensures
        r@ == (if kind@ == "area"@ {
            "area"@
        } else {
            "project"@
        }),
{
    if crate::text::eq_str(&chars_of(kind), "area") {
        "area"
    } else {
        "project"
    }
}

/// The scope of a page an assistant creates: `work`, or else `personal`.
pub fn page_scope(scope: &str) -> (r: &'static str)
    ensures
        r@ == (if scope@ == "work"@ {
            "work"@
        } else {
            "personal"@
        }),
{
    if crate::text::eq_str(&chars_of(scope), "work") {
        "work"
    } else {
        "personal"
    }
}

/// Who a section an assistant appends to a page is filed as: the name and
/// scope of the page's registry row, else its slug and `personal`.
pub fn page_owner(known: &Vec<ProjectMeta>, slug: &str) -> (r: (String, String))
    ensures
        match find_slug(pms(known@), slug@) {
            Some(k) => r.0@ == known@[k].name@ && r.1@ == known@[k].scope@,
            None => r.0@ == slug@ && r.1@ == "personal"@,
        },
{
    match find_slug_exec(known, &chars_of(slug)) {
        Some(k) => (known[k].name.clone(), known[k].scope.clone()),
        None => (slug.to_string(), "personal".to_string()),
    }
}

/// The reply to a capture: where it waits.
pub fn captured_reply(id: &str) -> (r: String)
    ensures
        r@ == "Captured as "@ + id@ + ". Daybook will file it automatically; it is in the inbox until then."@,
{
    let mut out = chars_of("Captured as ");
    push_str(&mut out, id);
    push_str(&mut out, ". Daybook will file it automatically; it is in the inbox until then.");
    to_string(&out)
}

/// The reply when a page is created.
pub fn created_reply(kind: &str, name: &str, slug: &str) -> (r: String)
    ensures
        r@ == "Created "@ + kind@ + " \""@ + name@ + "\" ("@ + slug@ + ")."@,
{
    let mut out = chars_of("Created ");
    push_str(&mut out, kind);
    push_str(&mut out, " \"");
    push_str(&mut out, name);
    push_str(&mut out, "\" (");
    push_str(&mut out, slug);
    push_str(&mut out, ").");
    to_string(&out)
}

/// The reply when notes are appended to a page.
pub fn appended_reply(name: &str, date: &str) -> (r: String)
    ensures
        r@ == "Appended to "@ + name@ + " under "@ + date@ + "."@,
{
    let mut out = chars_of("Appended to ");
    push_str(&mut out, name);
    push_str(&mut out, " under ");
    push_str(&mut out, date);
    push_str(&mut out, ".");
    to_string(&out)
}

} // verus!
