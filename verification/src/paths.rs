//! Where things live inside a vault. Paths are plain strings with `/` as the
//! separator; `join` appends a component the way a Unix path push does.
//!
//!   inbox/                   captured text waiting to be filed
//!   raw/YYYY-MM-DD.md        everything captured that day, verbatim
//!   days/YYYY-MM-DD.md       the day note
//!   projects/, areas/        one page per project or area
//!   attachments/             pasted images and files
//!   config/                  settings, projects.json, entries, trash
//!   ideas.md, tasks.md, personal.md
use crate::names::{slugify, spec_slugify};
use crate::text::{chars_of, eq_str, push_str, to_string};
use vstd::prelude::*;

verus! {

/// `base` joined with `name` the way `Path::join` does: a separator goes in
/// between unless `base` is empty or already ends with one, and an absolute
/// `name` (one starting with `/`) replaces `base` altogether.
pub open spec fn spec_join(base: Seq<char>, name: Seq<char>) -> Seq<char> {
    if name.len() > 0 && name[0] == '/' {
        name
    } else if base.len() == 0 || base.last() == '/' {
        base + name
    } else {
        base + seq!['/'] + name
    }
}

/// `base/name`, or `name` itself when it is absolute.
pub fn join(base: &str, name: &str) -> (r: String)
    ensures
        r@ == spec_join(base@, name@),
{
    let nc = chars_of(name);
    if nc.len() > 0 && nc[0] == '/' {
        return name.to_string();
    }
    let mut out: Vec<char> = Vec::new();
    push_str(&mut out, base);
    let n = out.len();
    if n > 0 && out[n - 1] != '/' {
        out.push('/');
    }
    push_str(&mut out, name);
    proof {
        if base@.len() != 0 && base@.last() != '/' {
            assert(out@ =~= base@ + seq!['/'] + name@);
        } else {
            assert(out@ =~= base@ + name@);
        }
    }
    to_string(&out)
}

pub fn inbox_dir(v: &str) -> (r: String)
    ensures
        r@ == spec_join(v@, "inbox"@),
{
    join(v, "inbox")
}

pub fn raw_dir(v: &str) -> (r: String)
    ensures
        r@ == spec_join(v@, "raw"@),
{
    join(v, "raw")
}

pub fn days_dir(v: &str) -> (r: String)
    ensures
        r@ == spec_join(v@, "days"@),
{
    join(v, "days")
}

pub fn projects_dir(v: &str) -> (r: String)
    ensures
        r@ == spec_join(v@, "projects"@),
{
    join(v, "projects")
}

pub fn areas_dir(v: &str) -> (r: String)
    ensures
        r@ == spec_join(v@, "areas"@),
{
    join(v, "areas")
}

pub fn attachments_dir(v: &str) -> (r: String)
    ensures
        r@ == spec_join(v@, "attachments"@),
{
    join(v, "attachments")
}

pub fn config_dir(v: &str) -> (r: String)
    ensures
        r@ == spec_join(v@, "config"@),
{
    join(v, "config")
}

/// Where an entry of `kind` gets its own page; `None` for kinds that live
/// only in the day note.
pub fn dir_for_kind(v: &str, kind: &str) -> (r: Option<String>)
    ensures
        r is Some <==> (kind@ == "project"@ || kind@ == "area"@),
        r matches Some(p) ==> p@ == (if kind@ == "project"@ {
            spec_join(v@, "projects"@)
        } else {
            spec_join(v@, "areas"@)
        }),
{
    let k = chars_of(kind);
    proof {
        reveal_strlit("project");
        reveal_strlit("area");
    }
    if eq_str(&k, "project") {
        Some(projects_dir(v))
    } else if eq_str(&k, "area") {
        Some(areas_dir(v))
    } else {
        None
    }
}

pub fn ideas_path(v: &str) -> (r: String)
    ensures
        r@ == spec_join(v@, "ideas.md"@),
{
    join(v, "ideas.md")
}

pub fn tasks_path(v: &str) -> (r: String)
    ensures
        r@ == spec_join(v@, "tasks.md"@),
{
    join(v, "tasks.md")
}

pub fn personal_path(v: &str) -> (r: String)
    ensures
        r@ == spec_join(v@, "personal.md"@),
{
    join(v, "personal.md")
}

/// The entry log, one JSON record per line.
pub fn entries_path(v: &str) -> (r: String)
    ensures
        r@ == spec_join(spec_join(v@, "config"@), "entries.jsonl"@),
{
    let c = config_dir(v);
    join(c.as_str(), "entries.jsonl")
}

/// Where deleted things wait to be restored.
pub fn trash_dir(v: &str) -> (r: String)
    ensures
        r@ == spec_join(spec_join(v@, "config"@), "trash"@),
{
    let c = config_dir(v);
    join(c.as_str(), "trash")
}

/// The settings file inside the application's configuration directory.
pub fn settings_path(config_dir: &str) -> (r: String)
    ensures
        r@ == spec_join(config_dir@, "settings.json"@),
{
    join(config_dir, "settings.json")
}


/// The file of a project or area page: `areas/` for an area, `projects/`
/// for anything else, named by the slugified slug.
pub fn page_file(v: &str, kind: &str, slug: &str) -> (r: String)
    ensures
        r@ == spec_join(
            spec_join(
                v@,
                if kind@ == "area"@ {
                    "areas"@
                } else {
                    "projects"@
                },
            ),
            spec_slugify(slug@) + ".md"@,
        ),
{
    let dir = if eq_str(&chars_of(kind), "area") {
        areas_dir(v)
    } else {
        projects_dir(v)
    };
    let mut name: Vec<char> = chars_of(slugify(slug).as_str());
    push_str(&mut name, ".md");
    let n = to_string(&name);
    join(dir.as_str(), n.as_str())
}
} // verus!
