//! Undo for destructive actions: what a deletion keeps, and how putting it
//! back is decided. Restoring never overwrites something recreated in the
//! meantime; that case is refused and the item stays in the trash.
use crate::entries::EntryRecord;
use crate::order::{sort_by_key, sorted_by_key, SortKey};
use crate::projects::ProjectMeta;
use crate::filing::{link_for, os, spec_link_for};
use crate::paths::{inbox_dir, join, spec_join};
use crate::tasks::{append_task, dates_error, ended, opt_str, spec_format_task_line};
use crate::text::{chars_of, eq_str, take_chars, take_chars_exec, to_string, vv};
use vstd::prelude::*;

verus! {

/// What a deletion kept.
#[derive(Clone, Debug)]
pub enum Payload {
    /// One routed entry. Tasks also had a line in `tasks.md`.
    Entry { record: EntryRecord },
    /// A project or area page, plus its registry row.
    Entity { entity_kind: String, slug: String, markdown: String, meta: Option<ProjectMeta> },
    /// A capture discarded before it was ever routed.
    Inbox { id: String, contents: String },
}

/// One thing in the trash.
#[derive(Clone, Debug)]
pub struct TrashItem {
    pub id: String,
    pub label: String,
    pub deleted_at: String,
    pub payload: Payload,
}

impl SortKey for TrashItem {
    open spec fn sort_key(&self) -> Seq<Seq<char>> {
        seq![self.id@]
    }

    fn key(&self) -> (r: Vec<Vec<char>>) {
        let mut k: Vec<Vec<char>> = Vec::new();
        k.push(chars_of(self.id.as_str()));
        proof {
            assert(vv(k@) =~= seq![self.id@]);
        }
        k
    }
}

/// Refusal when the entry exists again.
pub const ENTRY_EXISTS: &'static str = "That entry exists again; delete it first if you want the old one.";

/// Refusal when the capture is back in the inbox.
pub const INBOX_EXISTS: &'static str = "That capture is back in the inbox already.";

/// The label a trashed item is listed under: at most 120 characters.
pub fn trash_label(label: &str) -> (r: String)
    ensures
        r@ == take_chars(label@, 120),
{
    let lc = chars_of(label);
    to_string(&take_chars_exec(&lc, 120))
}

/// The trash, newest first (ids start with their deletion stamp).
pub fn sort_trash(items: Vec<TrashItem>) -> (r: Vec<TrashItem>)
    ensures
        r@.to_multiset() == items@.to_multiset(),
        sorted_by_key(r@, true),
{
    sort_by_key(items, true)
}

/// Whether an entry with id `id` is in the index.
fn id_taken(all: &Vec<EntryRecord>, id: &str) -> (r: bool)
    ensures
        r == exists|i: int| 0 <= i < all@.len() && all@[i].id@ == id@,
{
    let rc = chars_of(id);
    let mut i: usize = 0;
    while i < all.len()
        invariant
            0 <= i <= all.len(),
            rc@ == id@,
            forall|j: int| 0 <= j < i ==> all@[j].id@ != id@,
        decreases all.len() - i,
    {
        let c = chars_of(all[i].id.as_str());
        if crate::text::eq(&c, &rc) {
            return true;
        }
        i += 1;
    }
    false
}

/// The index with `record` added, sorted by (date, time, id).
fn with_entry(all: Vec<EntryRecord>, record: EntryRecord) -> (r: Vec<EntryRecord>)
    ensures
        r@.to_multiset() == all@.push(record).to_multiset(),
        sorted_by_key(r@, false),
{
    let mut all = all;
    all.push(record);
    sort_by_key(all, false)
}

/// Put a trashed entry back into the index: refused (the record handed
/// back, with the reason) when an entry with its id exists again, else the
/// index with it added, sorted by (date, time, id).
pub fn restore_entry(all: Vec<EntryRecord>, record: EntryRecord) -> (r: Result<Vec<EntryRecord>, (EntryRecord, String)>)
    ensures
        match r {
            Ok(v) => (forall|i: int| 0 <= i < all@.len() ==> all@[i].id@ != record.id@) && v@.to_multiset()
                == all@.push(record).to_multiset() && sorted_by_key(v@, false),
            Err(e) => (exists|i: int| 0 <= i < all@.len() && all@[i].id@ == record.id@) && e.0 == record
                && e.1@ == ENTRY_EXISTS@,
        },
{
    if id_taken(&all, record.id.as_str()) {
        return Err((record, ENTRY_EXISTS.to_string()));
    }
    Ok(with_entry(all, record))
}

/// The registry after a page comes back with its row: `None` when a row
/// with its slug is already there (nothing to write).
pub fn restore_meta(known: Vec<ProjectMeta>, meta: ProjectMeta) -> (r: Option<Vec<ProjectMeta>>)
    ensures
        match r {
            Some(v) => (forall|i: int| 0 <= i < known@.len() ==> known@[i].slug@ != meta.slug@) && v@
                == known@.push(meta),
            None => exists|i: int| 0 <= i < known@.len() && known@[i].slug@ == meta.slug@,
        },
{
    let sc = chars_of(meta.slug.as_str());
    let mut i: usize = 0;
    while i < known.len()
        invariant
            0 <= i <= known.len(),
            sc@ == meta.slug@,
            forall|j: int| 0 <= j < i ==> known@[j].slug@ != meta.slug@,
        decreases known.len() - i,
    {
        let c = chars_of(known[i].slug.as_str());
        if crate::text::eq(&c, &sc) {
            return None;
        }
        i += 1;
    }
    let mut known = known;
    known.push(meta);
    Some(known)
}

/// Refusal when a page with the slug exists again.
pub fn page_exists_message(slug: &str) -> (r: String)
    ensures
        r@ == "A page called "@ + slug@ + " exists again; rename it first."@,
{
    let mut out = chars_of("A page called ");
    crate::text::push_str(&mut out, slug);
    crate::text::push_str(&mut out, " exists again; rename it first.");
    to_string(&out)
}


/// Where a trashed page goes back: the directory of its kind (`projects/`
/// for any kind but `area`), named by its slug.
pub open spec fn restore_page_path(v: Seq<char>, kind: Seq<char>, slug: Seq<char>) -> Seq<char> {
    spec_join(
        spec_join(
            v,
            if kind == "area"@ {
                "areas"@
            } else {
                "projects"@
            },
        ),
        slug + ".md"@,
    )
}

/// Where a trashed capture goes back: its file in the inbox.
pub open spec fn restore_capture_path(v: Seq<char>, id: Seq<char>) -> Seq<char> {
    spec_join(spec_join(v, "inbox"@), id + ".md"@)
}

/// The file a trashed page or capture goes back to; `None` for an entry,
/// which goes back into the index.
pub fn restore_target(v: &str, payload: &Payload) -> (r: Option<String>)
    ensures
        match payload {
            Payload::Entry { .. } => r is None,
            Payload::Entity { entity_kind, slug, .. } => r matches Some(p) && p@ == restore_page_path(
                v@,
                entity_kind@,
                slug@,
            ),
            Payload::Inbox { id, .. } => r matches Some(p) && p@ == restore_capture_path(v@, id@),
        },
{
    match payload {
        Payload::Entry { .. } => None,
        Payload::Entity { entity_kind, slug, .. } => {
            let dir = if eq_str(&chars_of(entity_kind.as_str()), "area") {
                crate::paths::areas_dir(v)
            } else {
                crate::paths::projects_dir(v)
            };
            let mut name = chars_of(slug.as_str());
            crate::text::push_str(&mut name, ".md");
            let n = to_string(&name);
            Some(join(dir.as_str(), n.as_str()))
        },
        Payload::Inbox { id, .. } => {
            let dir = inbox_dir(v);
            let mut name = chars_of(id.as_str());
            crate::text::push_str(&mut name, ".md");
            let n = to_string(&name);
            Some(join(dir.as_str(), n.as_str()))
        },
    }
}

/// What putting a trashed item back comes to.
#[derive(Clone, Debug)]
pub enum Restored {
    /// The index with the entry back in it, sorted by (date, time, id); for
    /// a task also the new text of `tasks.md`, with its line back. `label`
    /// is the entry's title.
    Entry { records: Vec<EntryRecord>, tasks_text: Option<String>, label: String },
    /// The page to write back at `path`, and the registry to write when its
    /// row was missing from it. `label` is the slug.
    Page { path: String, markdown: String, registry: Option<Vec<ProjectMeta>>, label: String },
    /// The capture to write back into the inbox at `path`. `label` is its id.
    Capture { path: String, contents: String, label: String },
}

/// Why an item did not come back.
#[derive(Clone, Debug)]
pub enum RestoreError {
    /// Something with its name is there again; the item goes back into the
    /// trash, under the same label.
    Refused { item: TrashItem, reason: String },
    /// The entry's task line could not be written (a date that is no
    /// `YYYY-MM-DD` date).
    Failed(String),
}

fn opt_as_str(o: &Option<String>) -> (r: Option<&str>)
    ensures
        opt_str(r) == os(*o),
{
    match o {
        Some(s) => Some(s.as_str()),
        None => None,
    }
}

/// Put something back, given what the vault holds now: the entry index,
/// the text of `tasks.md`, the registry, and whether the file the item
/// goes back to (`restore_target`) is there. Nothing recreated meanwhile
/// is overwritten: that case is refused. A restored task gets its line
/// back in `tasks.md`, linked to its page when its slug is registered.
pub fn restore(
    v: &str,
    item: TrashItem,
    occupied: bool,
    all: Vec<EntryRecord>,
    tasks_md: &str,
    known: Vec<ProjectMeta>,
    date_fmt: &str,
) -> (r: Result<Restored, RestoreError>)
    ensures
        match item.payload {
            Payload::Entry { record } => if exists|i: int| 0 <= i < all@.len() && all@[i].id@ == record.id@ {
                r matches Err(RestoreError::Refused { item: back, reason }) && back == item && reason@
                    == ENTRY_EXISTS@
            } else if record.kind@ == "task"@ && dates_error(record.date@, os(record.due)) is Some {
                r matches Err(RestoreError::Failed(e)) && dates_error(record.date@, os(record.due)) == Some(e@)
            } else {
                &&& r matches Ok(Restored::Entry { records, tasks_text, label })
                &&& records@.to_multiset() == all@.push(record).to_multiset()
                &&& sorted_by_key(records@, false)
                &&& label@ == record.title@
                &&& if record.kind@ == "task"@ {
                    tasks_text matches Some(t) && t@ == ended(tasks_md@) + spec_format_task_line(
                        false,
                        record.id@,
                        record.scope@,
                        record.title@,
                        record.date@,
                        os(record.due),
                        spec_link_for(crate::actions::pms(known@), seq![], record.slug@),
                        date_fmt@,
                    ) + seq!['\n']
                } else {
                    tasks_text is None
                }
            },
            Payload::Entity { entity_kind, slug, markdown, meta } => if occupied {
                r matches Err(RestoreError::Refused { item: back, reason }) && back == item && reason@
                    == "A page called "@ + slug@ + " exists again; rename it first."@
            } else {
                &&& r matches Ok(Restored::Page { path, markdown: m, registry, label })
                &&& path@ == restore_page_path(v@, entity_kind@, slug@)
                &&& m == markdown
                &&& label == slug
                &&& match meta {
                    Some(mt) => if exists|i: int| 0 <= i < known@.len() && known@[i].slug@ == mt.slug@ {
                        registry is None
                    } else {
                        registry matches Some(k) && k@ == known@.push(mt)
                    },
                    None => registry is None,
                }
            },
            Payload::Inbox { id, contents } => if occupied {
                r matches Err(RestoreError::Refused { item: back, reason }) && back == item && reason@
                    == INBOX_EXISTS@
            } else {
                &&& r matches Ok(Restored::Capture { path, contents: c, label })
                &&& path@ == restore_capture_path(v@, id@)
                &&& c == contents
                &&& label == id
            },
        },
{
    let path = restore_target(v, &item.payload);
    let TrashItem { id: tid, label: tlabel, deleted_at, payload } = item;
    match payload {
        Payload::Entry { record } => {
            if id_taken(&all, record.id.as_str()) {
                return Err(RestoreError::Refused {
                    item: TrashItem { id: tid, label: tlabel, deleted_at, payload: Payload::Entry { record } },
                    reason: ENTRY_EXISTS.to_string(),
                });
            }
            let mut tasks_text: Option<String> = None;
            if eq_str(&chars_of(record.kind.as_str()), "task") {
                let link = link_for(&known, &[], record.slug.as_str());
                match append_task(
                    tasks_md,
                    record.date.as_str(),
                    record.scope.as_str(),
                    record.title.as_str(),
                    opt_as_str(&record.due),
                    date_fmt,
                    record.id.as_str(),
                    opt_as_str(&link),
                ) {
                    Ok(t) => {
                        tasks_text = Some(t);
                    },
                    Err(e) => {
                        return Err(RestoreError::Failed(e));
                    },
                }
            }
            let label = record.title.clone();
            let records = with_entry(all, record);
            Ok(Restored::Entry { records, tasks_text, label })
        },
        Payload::Entity { entity_kind, slug, markdown, meta } => {
            if occupied {
                let reason = page_exists_message(slug.as_str());
                return Err(RestoreError::Refused {
                    item: TrashItem {
                        id: tid,
                        label: tlabel,
                        deleted_at,
                        payload: Payload::Entity { entity_kind, slug, markdown, meta },
                    },
                    reason,
                });
            }
            let registry = match meta {
                Some(mt) => restore_meta(known, mt),
                None => None,
            };
            let path = match path {
                Some(p) => p,
                None => String::new(),
            };
            Ok(Restored::Page { path, markdown, registry, label: slug })
        },
        Payload::Inbox { id, contents } => {
            if occupied {
                return Err(RestoreError::Refused {
                    item: TrashItem { id: tid, label: tlabel, deleted_at, payload: Payload::Inbox { id, contents } },
                    reason: INBOX_EXISTS.to_string(),
                });
            }
            let path = match path {
                Some(p) => p,
                None => String::new(),
            };
            Ok(Restored::Capture { path, contents, label: id })
        },
    }
}


/// The text of an inbox file after its front matter: what lies between the
/// first `---` line ending in a blank line and the next, or the whole file.
pub open spec fn after_front_matter(contents: Seq<char>) -> Seq<char> {
    match crate::text::find(contents, "---\n\n"@) {
        Some(i) => {
            let rest = contents.skip(i + 5);
            match crate::text::find(rest, "---\n\n"@) {
                Some(j) => rest.take(j),
                None => rest,
            }
        },
        None => contents,
    }
}

/// The label a discarded capture is kept in the trash under: its text,
/// trimmed, at most 80 characters.
pub fn discard_label(contents: &str) -> (r: String)
    ensures
        r@ == take_chars(crate::text::trim(after_front_matter(contents@)), 80),
{
    let c = chars_of(contents);
    proof {
        reveal_strlit("---\n\n");
    }
    let part: Vec<char> = match crate::text::find_str(&c, "---\n\n") {
        Some(i) => {
            proof {
                crate::text::lemma_find_props(c@, "---\n\n"@);
                assert("---\n\n"@.len() == 5);
                assert(crate::text::occurs_at(c@, "---\n\n"@, i as int));
                assert(i + 5 <= c@.len());
                assert(c@.len() == c.len());
            }
            let rest = crate::text::slice_of(&c, i + 5, c.len());
            proof {
                assert(rest@ =~= contents@.skip(i + 5));
            }
            match crate::text::find_str(&rest, "---\n\n") {
                Some(j) => {
                    proof {
                        crate::text::lemma_find_props(rest@, "---\n\n"@);
                    }
                    let r = crate::text::slice_of(&rest, 0, j);
                    proof {
                        assert(r@ =~= rest@.take(j as int));
                    }
                    r
                },
                None => rest,
            }
        },
        None => c,
    };
    let t = crate::text::trim_exec(&part);
    to_string(&take_chars_exec(&t, 80))
}

} // verus!
