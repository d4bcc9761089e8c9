//! Projects and areas: the registry rows kept in `config/projects.json`, and
//! the summary of a page listed in the sidebar.
use crate::datetime::{parse_date_to_iso, spec_parse_date_to_iso};
use crate::order::{sort_by_key, sorted_by_key, text_order, text_order_exec, SortKey};
use crate::names::{slugify, spec_slugify};
use crate::text::{
    chars_of, eq_str, is_blank, lines, lines_of, push_str, slice_of, starts_with, starts_with_str,
    to_string, trim, trim_exec, vv,
};
use vstd::prelude::*;

verus! {

/// One known project or area.
#[derive(Clone, Debug)]
pub struct ProjectMeta {
    pub slug: String,
    pub name: String,
    /// `project` (has an end state) or `area` (ongoing responsibility).
    pub kind: String,
    /// `personal` or `work`. Orthogonal to kind: a personal project is both.
    pub scope: String,
    /// `active` | `paused` | `done`. Only projects really finish.
    pub status: String,
    /// Slug of the page this one sits under; empty at the top level.
    pub parent: String,
    pub aliases: Vec<String>,
    pub description: String,
}

/// A page as the sidebar lists it.
#[derive(Clone, Debug)]
pub struct ProjectEntry {
    pub slug: String,
    pub name: String,
    pub kind: String,
    pub scope: String,
    /// `active` | `paused` | `done`. Frontmatter, so it is hand-editable.
    pub status: String,
    /// The newest dated section, ISO; empty when there is none.
    pub last_date: String,
    /// How many distinct dates have a section.
    pub day_count: usize,
}

impl SortKey for ProjectEntry {
    open spec fn sort_key(&self) -> Seq<Seq<char>> {
        seq![self.last_date@]
    }

    fn key(&self) -> (r: Vec<Vec<char>>) {
        let mut k: Vec<Vec<char>> = Vec::new();
        k.push(chars_of(self.last_date.as_str()));
        proof {
            assert(vv(k@) =~= seq![self.last_date@]);
        }
        k
    }
}

/// The status a registry row gets when it names none.
pub fn default_status() -> (r: String)
    ensures
        r@ == "active"@,
{
    "active".to_string()
}

/// The kind a registry row gets when it names none.
pub fn default_kind() -> (r: String)
    ensures
        r@ == "project"@,
{
    "project".to_string()
}

/// The scope a registry row gets when it names none.
pub fn default_scope() -> (r: String)
    ensures
        r@ == "work"@,
{
    "work".to_string()
}

// ------------------------------------------------------------------ specs

/// `lines().find_map(|l| l.strip_prefix(p))`.
pub open spec fn first_after_prefix(ls: Seq<Seq<char>>, p: Seq<char>) -> Option<Seq<char>>
    decreases ls.len(),
{
    if ls.len() == 0 {
        None
    } else if starts_with(ls[0], p) {
        Some(ls[0].skip(p.len() as int))
    } else {
        first_after_prefix(ls.drop_first(), p)
    }
}

/// A frontmatter field, trimmed, or the fallback when no line carries it.
pub open spec fn field_or(ls: Seq<Seq<char>>, p: Seq<char>, fallback: Seq<char>) -> Seq<char> {
    match first_after_prefix(ls, p) {
        Some(v) => trim(v),
        None => trim(fallback),
    }
}

/// The ISO dates of the `## ` headings that parse as dates, in order.
pub open spec fn heading_dates(ls: Seq<Seq<char>>, fmt: Seq<char>) -> Seq<Seq<char>>
    decreases ls.len(),
{
    if ls.len() == 0 {
        seq![]
    } else {
        let rest = heading_dates(ls.drop_last(), fmt);
        let l = ls.last();
        if starts_with(l, "## "@) {
            match spec_parse_date_to_iso(trim(l.skip(3)), fmt) {
                Some(d) => rest.push(d),
                None => rest,
            }
        } else {
            rest
        }
    }
}

/// Each value once, at its first occurrence.
pub open spec fn distinct(s: Seq<Seq<char>>) -> Seq<Seq<char>>
    decreases s.len(),
{
    if s.len() == 0 {
        seq![]
    } else {
        let rest = distinct(s.drop_last());
        if rest.contains(s.last()) {
            rest
        } else {
            rest.push(s.last())
        }
    }
}

/// The greatest value (in text order), empty for none.
pub open spec fn newest(s: Seq<Seq<char>>) -> Seq<char>
    decreases s.len(),
{
    if s.len() == 0 {
        seq![]
    } else {
        let m = newest(s.drop_last());
        if s.len() == 1 || text_order(s.last(), m) > 0 {
            s.last()
        } else {
            m
        }
    }
}

// ------------------------------------------------------------------ exec

fn field_or_exec(ls: &Vec<Vec<char>>, p: &str, fallback: &str) -> (r: String)
    ensures
        r@ == field_or(vv(ls@), p@, fallback@),
{
    let mut i: usize = 0;
    proof {
        assert(vv(ls@).skip(0) =~= vv(ls@));
    }
    while i < ls.len()
        invariant
            0 <= i <= ls.len(),
            first_after_prefix(vv(ls@), p@) == first_after_prefix(vv(ls@).skip(i as int), p@),
        decreases ls.len() - i,
    {
        let pc = chars_of(p);
        proof {
            assert(vv(ls@).skip(i as int)[0] == ls@[i as int]@);
            assert(vv(ls@).skip(i as int).drop_first() =~= vv(ls@).skip(i + 1));
        }
        if crate::text::starts_with_exec(&ls[i], &pc) {
            let rest = slice_of(&ls[i], pc.len(), ls[i].len());
            return to_string(&trim_exec(&rest));
        }
        i += 1;
    }
    let fc = chars_of(fallback);
    to_string(&trim_exec(&fc))
}

fn contains_text(v: &Vec<String>, x: &[char]) -> (r: bool)
    ensures
        r == v@.map_values(|s: String| s@).contains(x@),
{
    let ghost g = v@.map_values(|s: String| s@);
    let mut i: usize = 0;
    while i < v.len()
        invariant
            0 <= i <= v.len(),
            g == v@.map_values(|s: String| s@),
            forall|j: int| 0 <= j < i ==> g[j] != x@,
        decreases v.len() - i,
    {
        let c = chars_of(v[i].as_str());
        proof {
            assert(g[i as int] == v@[i as int]@);
        }
        if crate::text::eq(&c, x) {
            return true;
        }
        i += 1;
    }
    false
}

/// What the sidebar shows for the page `{slug}.md` of a given kind: its
/// frontmatter name, scope and status (falling back to the slug, `work` and
/// `active`), and its dated sections.
pub fn project_entry(slug: &str, kind: &str, text: &str, date_fmt: &str) -> (r: ProjectEntry)
    ensures
        r.slug@ == slug@,
        r.kind@ == kind@,
        r.name@ == field_or(lines(text@), "name: "@, slug@),
        r.scope@ == field_or(lines(text@), "scope: "@, "work"@),
        r.status@ == (if field_or(lines(text@), "status: "@, "active"@).len() == 0 {
            "active"@
        } else {
            field_or(lines(text@), "status: "@, "active"@)
        }),
        r.last_date@ == newest(heading_dates(lines(text@), date_fmt@)),
        r.day_count == distinct(heading_dates(lines(text@), date_fmt@)).len(),
{
    let ls = lines_of(text);
    let name = field_or_exec(&ls, "name: ", slug);
    let scope = field_or_exec(&ls, "scope: ", "work");
    let status = field_or_exec(&ls, "status: ", "active");
    let ghost g = vv(ls@);
    let mut dates: Vec<String> = Vec::new();
    let mut seen: Vec<String> = Vec::new();
    let mut last: Vec<char> = Vec::new();
    let mut i: usize = 0;
    while i < ls.len()
        invariant
            0 <= i <= ls.len(),
            g == vv(ls@),
            g == lines(text@),
            dates@.map_values(|s: String| s@) == heading_dates(g.take(i as int), date_fmt@),
            seen@.map_values(|s: String| s@) == distinct(heading_dates(g.take(i as int), date_fmt@)),
            last@ == newest(heading_dates(g.take(i as int), date_fmt@)),
            seen.len() <= i,
        decreases ls.len() - i,
    {
        proof {
            assert(g.take(i + 1).drop_last() =~= g.take(i as int));
            assert(g.take(i + 1).last() == ls@[i as int]@);
        }
        if starts_with_str(&ls[i], "## ") {
            proof {
                reveal_strlit("## ");
            }
            let rest = slice_of(&ls[i], 3, ls[i].len());
            let t = to_string(&trim_exec(&rest));
            match parse_date_to_iso(t.as_str(), date_fmt) {
                Some(d) => {
                    let dc = chars_of(d.as_str());
                    let ghost hd = heading_dates(g.take(i as int), date_fmt@);
                    if dates.len() == 0 || text_order_exec(&dc, &last) > 0 {
                        last = crate::text::copy(&dc);
                    }
                    if !contains_text(&seen, &dc) {
                        seen.push(d.clone());
                        proof {
                            assert(seen@.map_values(|s: String| s@) =~= distinct(hd).push(d@));
                        }
                    }
                    dates.push(d);
                    proof {
                        assert(dates@.map_values(|s: String| s@) =~= hd.push(d@));
                        assert(heading_dates(g.take(i + 1), date_fmt@) == hd.push(d@));
                        assert(hd.push(d@).drop_last() =~= hd);
                    }
                },
                None => {},
            }
        }
        i += 1;
    }
    proof {
        assert(g.take(ls.len() as int) =~= g);
    }
    let sc = chars_of(status.as_str());
    let status = if sc.len() == 0 {
        "active".to_string()
    } else {
        status
    };
    ProjectEntry {
        slug: slug.to_string(),
        name,
        kind: kind.to_string(),
        scope,
        status,
        last_date: to_string(&last),
        day_count: seen.len(),
    }
}

/// Projects, then areas, with the most recently touched first.
pub fn list_projects(projects: Vec<ProjectEntry>, areas: Vec<ProjectEntry>) -> (r: Vec<
    ProjectEntry,
>)
    ensures
        r@.to_multiset() == (projects@ + areas@).to_multiset(),
        sorted_by_key(r@, true),
{
    let mut all = projects;
    let mut rest = areas;
    all.append(&mut rest);
    sort_by_key(all, true)
}


/// The page a new project or area starts as.
pub open spec fn spec_new_page(slug: Seq<char>, name: Seq<char>, kind: Seq<char>, scope: Seq<char>) -> Seq<char> {
    "---\nslug: "@ + slug + "\nname: "@ + name + "\ntype: "@ + kind + "\nscope: "@ + scope
        + "\n---\n\n# "@ + name + "\n\n## Overview\n\n- _(nothing filed yet)_\n\n"@
}

/// A new project or area: `area` or `project`, `personal` or `work`, the
/// name trimmed and slugified; its registry row, active with no parent,
/// aliases or description, and its first page. A blank name is refused.
pub fn new_entity(kind: &str, name: &str, scope: &str) -> (r: Result<(ProjectMeta, String), String>)
    ensures
        r is Err <==> is_blank(name@),
        r matches Err(e) ==> e@ == "Name is required"@,
        r matches Ok((m, page)) ==> {
            &&& m.slug@ == spec_slugify(trim(name@))
            &&& m.name@ == trim(name@)
            &&& m.kind@ == (if kind@ == "area"@ {
                "area"@
            } else {
                "project"@
            })
            &&& m.scope@ == (if scope@ == "personal"@ {
                "personal"@
            } else {
                "work"@
            })
            &&& m.status@ == "active"@
            &&& m.parent@.len() == 0
            &&& m.aliases@.len() == 0
            &&& m.description@.len() == 0
            &&& page@ == spec_new_page(m.slug@, m.name@, m.kind@, m.scope@)
        },
{
    proof {
        reveal_strlit("area");
        reveal_strlit("project");
        reveal_strlit("personal");
        reveal_strlit("work");
    }
    let k: &str = if eq_str(&chars_of(kind), "area") {
        "area"
    } else {
        "project"
    };
    let sc: &str = if eq_str(&chars_of(scope), "personal") {
        "personal"
    } else {
        "work"
    };
    let t = trim_exec(&chars_of(name));
    if t.len() == 0 {
        return Err("Name is required".to_string());
    }
    let name_s = to_string(&t);
    let slug = slugify(name_s.as_str());
    let mut page: Vec<char> = Vec::new();
    push_str(&mut page, "---\nslug: ");
    push_str(&mut page, slug.as_str());
    push_str(&mut page, "\nname: ");
    push_str(&mut page, name_s.as_str());
    push_str(&mut page, "\ntype: ");
    push_str(&mut page, k);
    push_str(&mut page, "\nscope: ");
    push_str(&mut page, sc);
    push_str(&mut page, "\n---\n\n# ");
    push_str(&mut page, name_s.as_str());
    push_str(&mut page, "\n\n## Overview\n\n- _(nothing filed yet)_\n\n");
    let meta = ProjectMeta {
        slug,
        name: name_s,
        kind: k.to_string(),
        scope: sc.to_string(),
        status: default_status(),
        parent: String::new(),
        aliases: Vec::new(),
        description: String::new(),
    };
    Ok((meta, to_string(&page)))
}

/// Why a page cannot be created over an existing one.
pub fn page_exists(kind: &str, slug: &str) -> (r: String)
    ensures
        r@ == "A "@ + kind@ + " named '"@ + slug@ + "' already exists"@,
{
    let mut out: Vec<char> = Vec::new();
    push_str(&mut out, "A ");
    push_str(&mut out, kind);
    push_str(&mut out, " named '");
    push_str(&mut out, slug);
    push_str(&mut out, "' already exists");
    to_string(&out)
}

/// The registry rows other than those of `slug`, in order.
pub open spec fn without_slug(ks: Seq<ProjectMeta>, slug: Seq<char>) -> Seq<ProjectMeta>
    decreases ks.len(),
{
    if ks.len() == 0 {
        seq![]
    } else {
        let r = without_slug(ks.drop_last(), slug);
        if ks.last().slug@ == slug {
            r
        } else {
            r.push(ks.last())
        }
    }
}

/// Deleting a page: the file to remove (`areas/` for an area, `projects/`
/// for anything else, named by the slugified slug) and the registry without
/// the page's rows. Nothing else changes: links to the page stay as written.
pub fn delete_entity(v: &str, kind: &str, slug: &str, known: Vec<ProjectMeta>) -> (r: (String, Vec<ProjectMeta>))
    ensures
        r.0@ == crate::paths::spec_join(
            crate::paths::spec_join(
                v@,
                if kind@ == "area"@ {
                    "areas"@
                } else {
                    "projects"@
                },
            ),
            spec_slugify(slug@) + ".md"@,
        ),
        r.1@ == without_slug(known@, spec_slugify(slug@)),
{
    let path = crate::paths::page_file(v, kind, slug);
    let s = slugify(slug);
    let sc = chars_of(s.as_str());
    let ghost k = known@;
    let mut out: Vec<ProjectMeta> = Vec::new();
    proof {
        assert(k.take(0) =~= Seq::<ProjectMeta>::empty());
    }
    for m in it: known.into_iter()
        invariant
            it.seq() == k,
            sc@ == spec_slugify(slug@),
            out@ == without_slug(k.take(it.index() as int), sc@),
    {
        proof {
            assert(k.take(it.index() + 1).drop_last() =~= k.take(it.index() as int));
            assert(k.take(it.index() + 1).last() == m);
        }
        if !crate::text::eq(&chars_of(m.slug.as_str()), &sc) {
            out.push(m);
        }
    }
    proof {
        assert(k.take(k.len() as int) =~= k);
    }
    (path, out)
}

} // verus!
