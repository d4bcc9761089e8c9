//! Filing one triaged capture: which files it touches and with what, in the
//! order the writes are made (structural changes and destinations first,
//! the raw archive and the index after, the inbox file last, so a crash
//! midway leaves the capture in the inbox).
use crate::actions::{find_slug, new_row, plan_actions, plan_actions_spec, pm, pms, av, opvs, PageOp, PM};
use crate::attachments::{ensure_attachment_markdown, spec_ensure_attachment_markdown};
use crate::entries::{entry_id, spec_entry_id, EntryRecord, SOURCE_TRIAGE};
use crate::history::InboxItem;
use crate::projects::ProjectMeta;
use crate::text::{
    chars_of, eq, eq_str, is_blank, is_blank_exec, push_all, push_str, sv, take_chars,
    take_chars_exec, to_string, trim, trim_exec,
};
use crate::triage::{
    destination, primary_title, render_day_item_body, render_entity_section, spec_destination,
    spec_primary_title, spec_render_day_item_body, spec_render_entity_section, RoutedEntry,
    TriageResult,
};
use vstd::prelude::*;

verus! {

/// An append to `ideas.md` or `tasks.md` for one entry.
pub enum EntryWrite {
    Idea { scope: String, text: String, entry_id: String, link: Option<String> },
    Task { scope: String, label: String, due: Option<String>, entry_id: String, link: Option<String> },
}

/// One entry's line on `personal.md`.
pub struct PersonalWrite {
    pub title: String,
    pub dest: String,
    pub body: String,
}

/// Everything one capture files on one project or area page.
pub struct EntityWrite {
    pub kind: String,
    pub slug: String,
    pub name: String,
    pub scope: String,
    pub body: String,
}

/// What filing one capture reports.
pub struct ItemProcessResult {
    pub id: String,
    pub date: String,
    pub entry_count: usize,
    pub destinations: Vec<String>,
    pub new_entities: Vec<String>,
    pub summary: Vec<String>,
    /// Structural changes the capture asked for, in plain words.
    pub actions: Vec<String>,
}

/// The writes that file one capture, in the order they are made.
pub struct TriagePlan {
    /// Page changes asked for in the capture.
    pub page_ops: Vec<PageOp>,
    /// Idea and task appends, in entry order.
    pub entry_writes: Vec<EntryWrite>,
    /// When the capture has personal entries: clear the capture from
    /// `personal.md`, then file these.
    pub personal: Option<Vec<PersonalWrite>>,
    /// Project and area pages, each once.
    pub entities: Vec<EntityWrite>,
    /// The capture's records for the item index.
    pub records: Vec<EntryRecord>,
    /// The capture's section on the day note.
    pub day_title: String,
    pub day_body: String,
    pub result: ItemProcessResult,
}

/// An entry write as a value: task or idea, scope, text, due, entry id, link.
pub type WModel = (bool, Seq<char>, Seq<char>, Option<Seq<char>>, Seq<char>, Option<Seq<char>>);

pub open spec fn os(o: Option<String>) -> Option<Seq<char>> {
    match o {
        Some(s) => Some(s@),
        None => None,
    }
}

pub open spec fn wv(w: EntryWrite) -> WModel {
    match w {
        EntryWrite::Idea { scope, text, entry_id, link } => (false, scope@, text@, None, entry_id@, os(link)),
        EntryWrite::Task { scope, label, due, entry_id, link } => (true, scope@, label@, os(due), entry_id@, os(link)),
    }
}

/// An entity page write as a value: kind, slug, name, scope, body.
pub type EModel = (Seq<char>, Seq<char>, Seq<char>, Seq<char>, Seq<char>);

pub open spec fn ev(e: EntityWrite) -> EModel {
    (e.kind@, e.slug@, e.name@, e.scope@, e.body@)
}

pub open spec fn pwv(p: PersonalWrite) -> (Seq<char>, Seq<char>, Seq<char>) {
    (p.title@, p.dest@, p.body@)
}

// ------------------------------------------------------------------ specs

pub open spec fn is_entity_kind(k: Seq<char>) -> bool {
    k == "project"@ || k == "area"@
}

/// The kind the latest project or area entry with this slug gives it.
pub open spec fn entry_slug_kind(es: Seq<RoutedEntry>, s: Seq<char>) -> Option<Seq<char>>
    decreases es.len(),
{
    if es.len() == 0 {
        None
    } else {
        let e = es.last();
        if is_entity_kind(e.kind@) && !is_blank(e.slug@) && e.slug@ == s {
            Some(e.kind@)
        } else {
            entry_slug_kind(es.drop_last(), s)
        }
    }
}

/// The kind the latest registry row with this slug gives it.
pub open spec fn known_slug_kind(ks: Seq<PM>, s: Seq<char>) -> Option<Seq<char>>
    decreases ks.len(),
{
    if ks.len() == 0 {
        None
    } else if ks.last().0 == s {
        Some(ks.last().2)
    } else {
        known_slug_kind(ks.drop_last(), s)
    }
}

/// What a slug is, the capture's own pages taking precedence, so a task can
/// link to a project the same capture creates.
pub open spec fn slug_kind(ks: Seq<PM>, es: Seq<RoutedEntry>, s: Seq<char>) -> Option<Seq<char>> {
    match entry_slug_kind(es, s) {
        Some(k) => Some(k),
        None => known_slug_kind(ks, s),
    }
}

/// `areas/{slug}` or `projects/{slug}` for an entry that belongs to a page.
pub open spec fn spec_link_for(ks: Seq<PM>, es: Seq<RoutedEntry>, slug: Seq<char>) -> Option<Seq<char>> {
    let t = trim(slug);
    if t.len() == 0 {
        None
    } else {
        Some(
            (if slug_kind(ks, es, t) == Some("area"@) {
                "areas/"@
            } else {
                "projects/"@
            }) + t,
        )
    }
}

pub open spec fn spec_idea_text(e: RoutedEntry) -> Seq<char> {
    if is_blank(e.body@) {
        e.title@
    } else {
        e.title@ + " — "@ + trim(e.body@)
    }
}

pub open spec fn spec_task_label(e: RoutedEntry) -> Seq<char> {
    if is_blank(e.title@) {
        trim(e.body@)
    } else {
        trim(e.title@)
    }
}

/// The idea and task appends of entries `es` (numbered from 0), in order.
pub open spec fn entry_writes_spec(
    ks: Seq<PM>,
    all: Seq<RoutedEntry>,
    es: Seq<RoutedEntry>,
    item_id: Seq<char>,
) -> Seq<WModel>
    decreases es.len(),
{
    if es.len() == 0 {
        seq![]
    } else {
        let rest = entry_writes_spec(ks, all, es.drop_last(), item_id);
        let n = (es.len() - 1) as nat;
        let e = es.last();
        let id = spec_entry_id(item_id, n);
        let link = spec_link_for(ks, all, e.slug@);
        if e.kind@ == "idea"@ {
            rest.push((false, e.scope@, spec_idea_text(e), None, id, link))
        } else if e.kind@ == "task"@ {
            rest.push((true, e.scope@, spec_task_label(e), os(e.due), id, link))
        } else {
            rest
        }
    }
}

/// What the per-entry pass reports for an entry, if anything.
pub open spec fn entry_dest(e: RoutedEntry) -> Option<Seq<char>> {
    if e.kind@ == "idea"@ {
        Some("idea ("@ + e.scope@ + ")"@)
    } else if e.kind@ == "task"@ {
        Some("task ("@ + e.scope@ + ")"@)
    } else if is_entity_kind(e.kind@) {
        None
    } else {
        Some("note ("@ + e.scope@ + ")"@)
    }
}

pub open spec fn entry_dests(es: Seq<RoutedEntry>) -> Seq<Seq<char>>
    decreases es.len(),
{
    if es.len() == 0 {
        seq![]
    } else {
        match entry_dest(es.last()) {
            Some(d) => entry_dests(es.drop_last()).push(d),
            None => entry_dests(es.drop_last()),
        }
    }
}

/// An entry's text on `personal.md`: a note in full (with its attachments
/// put back), a page entry as a short pointer, anything else as its body
/// (or title when the body is blank).
pub open spec fn spec_personal_body(e: RoutedEntry, text: Seq<char>) -> Seq<char> {
    let dest = spec_destination(e.kind@, e.slug@, e.name@);
    if e.kind@ == "note"@ {
        spec_ensure_attachment_markdown(text, e.body@)
    } else if is_entity_kind(e.kind@) {
        if is_blank(e.body@) {
            "See "@ + dest
        } else {
            take_chars(e.body@, 280) + "\n\n→ "@ + dest
        }
    } else if is_blank(e.body@) {
        e.title@
    } else {
        e.body@
    }
}

pub open spec fn personal_writes_spec(es: Seq<RoutedEntry>, text: Seq<char>) -> Seq<(Seq<char>, Seq<char>, Seq<char>)>
    decreases es.len(),
{
    if es.len() == 0 {
        seq![]
    } else {
        let rest = personal_writes_spec(es.drop_last(), text);
        let e = es.last();
        if e.scope@ == "personal"@ {
            rest.push((e.title@, spec_destination(e.kind@, e.slug@, e.name@), spec_personal_body(e, text)))
        } else {
            rest
        }
    }
}

pub open spec fn find_group(gs: Seq<EModel>, kind: Seq<char>, slug: Seq<char>) -> Option<int>
    decreases gs.len(),
{
    if gs.len() == 0 {
        None
    } else if gs[0].0 == kind && gs[0].1 == slug {
        Some(0)
    } else {
        match find_group(gs.drop_first(), kind, slug) {
            Some(k) => Some(k + 1),
            None => None,
        }
    }
}

/// Project and area entries grouped by (kind, slug), in first-seen order,
/// each page's sections joined, so one write covers the whole capture.
pub open spec fn group_entities_spec(es: Seq<RoutedEntry>, date: Seq<char>) -> Seq<EModel>
    decreases es.len(),
{
    if es.len() == 0 {
        seq![]
    } else {
        let gs = group_entities_spec(es.drop_last(), date);
        let e = es.last();
        if is_entity_kind(e.kind@) {
            let sec = spec_render_entity_section(
                e.title@,
                sv(e.accomplished@),
                sv(e.decisions@),
                sv(e.open@),
                e.body@,
                date,
            ) + "\n"@;
            match find_group(gs, e.kind@, e.slug@) {
                Some(k) => {
                    let g = gs[k];
                    gs.update(
                        k,
                        (
                            g.0,
                            g.1,
                            if g.2.len() == 0 {
                                e.name@
                            } else {
                                g.2
                            },
                            g.3,
                            g.4 + sec,
                        ),
                    )
                },
                None => gs.push((e.kind@, e.slug@, e.name@, e.scope@, sec)),
            }
        } else {
            gs
        }
    }
}

/// The first page gets the capture's attachments put back.
pub open spec fn entity_writes_spec(gs: Seq<EModel>, text: Seq<char>) -> Seq<EModel> {
    Seq::new(
        gs.len(),
        |i: int|
            if i == 0 {
                (gs[0].0, gs[0].1, gs[0].2, gs[0].3, spec_ensure_attachment_markdown(text, gs[0].4))
            } else {
                gs[i]
            },
    )
}

/// Register the pages filed on: new ones are added (and named in the
/// result), known ones get a kind and scope if they had none.
pub open spec fn register_spec(ks: Seq<PM>, gs: Seq<EModel>) -> (Seq<PM>, Seq<Seq<char>>)
    decreases gs.len(),
{
    if gs.len() == 0 {
        (ks, seq![])
    } else {
        let (k2, names) = register_spec(ks, gs.drop_last());
        let g = gs.last();
        match find_slug(k2, g.1) {
            None => (k2.push(new_row(g.1, g.2, g.0, g.3)), names.push(g.2)),
            Some(j) => {
                let m = k2[j];
                (
                    k2.update(
                        j,
                        (
                            m.0,
                            m.1,
                            if m.2.len() == 0 {
                                g.0
                            } else {
                                m.2
                            },
                            if m.3.len() == 0 {
                                g.3
                            } else {
                                m.3
                            },
                            m.4,
                            m.5,
                            m.6,
                            m.7,
                        ),
                    ),
                    names,
                )
            },
        }
    }
}

/// The index record for entry `n` of a capture.
pub open spec fn record_of(r: EntryRecord, e: RoutedEntry, item: InboxItem, n: nat) -> bool {
    &&& r.id@ == spec_entry_id(item.id@, n)
    &&& r.item_id@ == item.id@
    &&& r.date@ == item.date@
    &&& r.time@ == item.time@
    &&& r.scope@ == e.scope@
    &&& r.kind@ == e.kind@
    &&& r.slug@ == e.slug@
    &&& r.name@ == e.name@
    &&& r.title@ == e.title@
    &&& r.body@ == e.body@
    &&& r.accomplished@ == e.accomplished@
    &&& r.decisions@ == e.decisions@
    &&& r.open@ == e.open@
    &&& os(r.due) == os(e.due)
    &&& r.source@ == SOURCE_TRIAGE@
}

// ------------------------------------------------------------------ exec

fn clone_strings(v: &Vec<String>) -> (r: Vec<String>)
    ensures
        r@ == v@,
{
    let mut out: Vec<String> = Vec::new();
    let mut i: usize = 0;
    while i < v.len()
        invariant
            0 <= i <= v.len(),
            out@ == v@.take(i as int),
        decreases v.len() - i,
    {
        out.push(v[i].clone());
        proof {
            assert(out@ =~= v@.take(i + 1));
        }
        i += 1;
    }
    proof {
        assert(out@ =~= v@);
    }
    out
}

fn clone_opt(o: &Option<String>) -> (r: Option<String>)
    ensures
        os(r) == os(*o),
{
    match o {
        Some(s) => Some(s.clone()),
        None => None,
    }
}

fn entry_slug_kind_exec(es: &[RoutedEntry], s: &[char]) -> (r: Option<Vec<char>>)
    ensures
        match r {
            Some(k) => entry_slug_kind(es@, s@) == Some(k@),
            None => entry_slug_kind(es@, s@) is None,
        },
{
    let mut i = es.len();
    proof {
        assert(es@.take(i as int) =~= es@);
    }
    while i > 0
        invariant
            i <= es.len(),
            entry_slug_kind(es@, s@) == entry_slug_kind(es@.take(i as int), s@),
        decreases i,
    {
        let e = &es[i - 1];
        proof {
            assert(es@.take(i as int).last() == es@[i - 1]);
            assert(es@.take(i as int).drop_last() =~= es@.take(i - 1));
        }
        let kc = chars_of(e.kind.as_str());
        let sc = chars_of(e.slug.as_str());
        if (eq_str(&kc, "project") || eq_str(&kc, "area")) && !is_blank_exec(&sc) && eq(&sc, s) {
            return Some(kc);
        }
        i -= 1;
    }
    None
}

fn known_slug_kind_exec(ks: &Vec<ProjectMeta>, s: &[char]) -> (r: Option<Vec<char>>)
    ensures
        match r {
            Some(k) => known_slug_kind(pms(ks@), s@) == Some(k@),
            None => known_slug_kind(pms(ks@), s@) is None,
        },
{
    let ghost g = pms(ks@);
    let mut i = ks.len();
    proof {
        assert(g.take(i as int) =~= g);
    }
    while i > 0
        invariant
            i <= ks.len(),
            g == pms(ks@),
            known_slug_kind(g, s@) == known_slug_kind(g.take(i as int), s@),
        decreases i,
    {
        proof {
            assert(g.take(i as int).last() == pm(ks@[i - 1]));
            assert(g.take(i as int).drop_last() =~= g.take(i - 1));
        }
        let sc = chars_of(ks[i - 1].slug.as_str());
        if eq(&sc, s) {
            return Some(chars_of(ks[i - 1].kind.as_str()));
        }
        i -= 1;
    }
    None
}

/// `areas/{slug}` or `projects/{slug}` for an entry that belongs to a page;
/// `None` when its slug is blank.
pub fn link_for(known: &Vec<ProjectMeta>, entries: &[RoutedEntry], slug: &str) -> (r: Option<String>)
    ensures
        os(r) == spec_link_for(pms(known@), entries@, slug@),
{
    let sc = chars_of(slug);
    let t = trim_exec(&sc);
    if t.len() == 0 {
        return None;
    }
    let kind = match entry_slug_kind_exec(entries, &t) {
        Some(k) => Some(k),
        None => known_slug_kind_exec(known, &t),
    };
    let area = match &kind {
        Some(k) => eq_str(k, "area"),
        None => false,
    };
    let mut out: Vec<char> = Vec::new();
    if area {
        push_str(&mut out, "areas/");
    } else {
        push_str(&mut out, "projects/");
    }
    push_all(&mut out, &t);
    Some(to_string(&out))
}

fn idea_text(e: &RoutedEntry) -> (r: String)
    ensures
        r@ == spec_idea_text(*e),
{
    let bc = chars_of(e.body.as_str());
    if is_blank_exec(&bc) {
        e.title.clone()
    } else {
        let mut out = chars_of(e.title.as_str());
        push_str(&mut out, " — ");
        push_all(&mut out, &trim_exec(&bc));
        to_string(&out)
    }
}

fn task_label(e: &RoutedEntry) -> (r: String)
    ensures
        r@ == spec_task_label(*e),
{
    let tc = chars_of(e.title.as_str());
    if is_blank_exec(&tc) {
        let bc = chars_of(e.body.as_str());
        to_string(&trim_exec(&bc))
    } else {
        to_string(&trim_exec(&tc))
    }
}

fn personal_body(e: &RoutedEntry, text: &str) -> (r: String)
    ensures
        r@ == spec_personal_body(*e, text@),
{
    let dest = destination(e.kind.as_str(), e.slug.as_str(), e.name.as_str());
    let kc = chars_of(e.kind.as_str());
    let bc = chars_of(e.body.as_str());
    if eq_str(&kc, "note") {
        ensure_attachment_markdown(text, e.body.as_str())
    } else if eq_str(&kc, "project") || eq_str(&kc, "area") {
        let mut out: Vec<char> = Vec::new();
        if is_blank_exec(&bc) {
            push_str(&mut out, "See ");
        } else {
            push_all(&mut out, &take_chars_exec(&bc, 280));
            push_str(&mut out, "\n\n→ ");
        }
        push_str(&mut out, dest.as_str());
        to_string(&out)
    } else if is_blank_exec(&bc) {
        e.title.clone()
    } else {
        e.body.clone()
    }
}

fn find_group_exec(gs: &Vec<EntityWrite>, kind: &[char], slug: &[char]) -> (r: Option<usize>)
    ensures
        r matches Some(k) ==> find_group(gs@.map_values(|g: EntityWrite| ev(g)), kind@, slug@) == Some(k as int) && k < gs.len(),
        r is None ==> find_group(gs@.map_values(|g: EntityWrite| ev(g)), kind@, slug@) is None,
{
    let ghost m = gs@.map_values(|g: EntityWrite| ev(g));
    let mut i: usize = 0;
    proof {
        assert(m.skip(0) =~= m);
    }
    while i < gs.len()
        invariant
            0 <= i <= gs.len(),
            m == gs@.map_values(|g: EntityWrite| ev(g)),
            find_group(m, kind@, slug@) == match find_group(m.skip(i as int), kind@, slug@) {
                Some(j) => Some(j + i),
                None => None,
            },
        decreases gs.len() - i,
    {
        proof {
            assert(m.skip(i as int)[0] == ev(gs@[i as int]));
            assert(m.skip(i as int).drop_first() =~= m.skip(i + 1));
        }
        let kc = chars_of(gs[i].kind.as_str());
        let sc = chars_of(gs[i].slug.as_str());
        if eq(&kc, kind) && eq(&sc, slug) {
            return Some(i);
        }
        i += 1;
    }
    proof {
        assert(m.skip(i as int) =~= Seq::<EModel>::empty());
    }
    None
}


fn group_entities(entries: &[RoutedEntry], date: &str) -> (r: Vec<EntityWrite>)
    ensures
        r@.map_values(|g: EntityWrite| ev(g)) == group_entities_spec(entries@, date@),
{
    let mut gs: Vec<EntityWrite> = Vec::new();
    let mut i: usize = 0;
    proof {
        assert(entries@.take(0) =~= Seq::<RoutedEntry>::empty());
        assert(gs@.map_values(|g: EntityWrite| ev(g)) =~= Seq::<EModel>::empty());
    }
    while i < entries.len()
        invariant
            0 <= i <= entries.len(),
            gs@.map_values(|g: EntityWrite| ev(g)) == group_entities_spec(entries@.take(i as int), date@),
        decreases entries.len() - i,
    {
        proof {
            assert(entries@.take(i + 1).drop_last() =~= entries@.take(i as int));
            assert(entries@.take(i + 1).last() == entries@[i as int]);
        }
        let e = &entries[i];
        let kc = chars_of(e.kind.as_str());
        if eq_str(&kc, "project") || eq_str(&kc, "area") {
            let ghost m = gs@.map_values(|g: EntityWrite| ev(g));
            let section = render_entity_section(e, date);
            let mut sec = chars_of(section.as_str());
            sec.push('\n');
            proof {
                reveal_strlit("\n");
                assert(sec@ =~= section@ + "\n"@);
            }
            let sc = chars_of(e.slug.as_str());
            match find_group_exec(&gs, &kc, &sc) {
                Some(k) => {
                    let ghost before = gs@;
                    let mut g = gs.remove(k);
                    let nc = chars_of(g.name.as_str());
                    if nc.len() == 0 {
                        g.name = e.name.clone();
                    }
                    let mut b = chars_of(g.body.as_str());
                    push_all(&mut b, &sec);
                    g.body = to_string(&b);
                    let ghost gv = ev(g);
                    gs.insert(k, g);
                    proof {
                        assert(gs@ =~= before.update(k as int, gs@[k as int]));
                        assert(gs@.map_values(|x: EntityWrite| ev(x)) =~= m.update(k as int, gv));
                    }
                },
                None => {
                    let g = EntityWrite {
                        kind: e.kind.clone(),
                        slug: e.slug.clone(),
                        name: e.name.clone(),
                        scope: e.scope.clone(),
                        body: to_string(&sec),
                    };
                    let ghost gv = ev(g);
                    gs.push(g);
                    proof {
                        assert(gs@.map_values(|x: EntityWrite| ev(x)) =~= m.push(gv));
                    }
                },
            }
        }
        i += 1;
    }
    proof {
        assert(entries@.take(entries.len() as int) =~= entries@);
    }
    gs
}

fn register(known: &mut Vec<ProjectMeta>, gs: &Vec<EntityWrite>) -> (r: Vec<String>)
    ensures
        (pms(final(known)@), sv(r@)) == register_spec(pms(old(known)@), gs@.map_values(|g: EntityWrite| ev(g))),
{
    let ghost m = gs@.map_values(|g: EntityWrite| ev(g));
    let ghost k0 = pms(known@);
    let mut names: Vec<String> = Vec::new();
    let mut i: usize = 0;
    proof {
        assert(m.take(0) =~= Seq::<EModel>::empty());
        assert(sv(names@) =~= Seq::<Seq<char>>::empty());
    }
    while i < gs.len()
        invariant
            0 <= i <= gs.len(),
            m == gs@.map_values(|g: EntityWrite| ev(g)),
            (pms(known@), sv(names@)) == register_spec(k0, m.take(i as int)),
        decreases gs.len() - i,
    {
        proof {
            assert(m.take(i + 1).drop_last() =~= m.take(i as int));
            assert(m.take(i + 1).last() == ev(gs@[i as int]));
        }
        let g = &gs[i];
        let sc = chars_of(g.slug.as_str());
        let ghost kb = known@;
        match crate::actions::find_slug_exec(known, &sc) {
            None => {
                names.push(g.name.clone());
                let row = ProjectMeta {
                    slug: g.slug.clone(),
                    name: g.name.clone(),
                    kind: g.kind.clone(),
                    scope: g.scope.clone(),
                    status: "active".to_string(),
                    parent: String::new(),
                    aliases: Vec::new(),
                    description: String::new(),
                };
                let ghost rv = pm(row);
                known.push(row);
                proof {
                    assert(sv(Seq::<String>::empty()) =~= Seq::<Seq<char>>::empty());
                    assert(pms(known@) =~= pms(kb).push(rv));
                    assert(rv == new_row(g.slug@, g.name@, g.kind@, g.scope@));
                }
            },
            Some(j) => {
                let mut row = known.remove(j);
                let kc = chars_of(row.kind.as_str());
                if kc.len() == 0 {
                    row.kind = g.kind.clone();
                }
                let scc = chars_of(row.scope.as_str());
                if scc.len() == 0 {
                    row.scope = g.scope.clone();
                }
                let ghost rv = pm(row);
                known.insert(j, row);
                proof {
                    assert(known@ =~= kb.update(j as int, known@[j as int]));
                    assert(pms(known@) =~= pms(kb).update(j as int, rv));
                }
            },
        }
        i += 1;
    }
    proof {
        assert(m.take(gs.len() as int) =~= m);
    }
    names
}

fn entry_record(item: &InboxItem, e: &RoutedEntry, n: usize) -> (r: EntryRecord)
    ensures
        record_of(r, *e, *item, n as nat),
{
    EntryRecord {
        id: entry_id(item.id.as_str(), n),
        item_id: item.id.clone(),
        date: item.date.clone(),
        time: item.time.clone(),
        scope: e.scope.clone(),
        kind: e.kind.clone(),
        slug: e.slug.clone(),
        name: e.name.clone(),
        title: e.title.clone(),
        body: e.body.clone(),
        accomplished: clone_strings(&e.accomplished),
        decisions: clone_strings(&e.decisions),
        open: clone_strings(&e.open),
        due: clone_opt(&e.due),
        source: SOURCE_TRIAGE.to_string(),
    }
}

/// Plan the filing of one triaged capture: its structural instructions
/// first (updating `known`), then an idea or task line per entry, its
/// personal entries, one write per project or area page (the first one
/// carries the capture's attachments), the index records, and its section
/// on the day note. Pages filed on that were not known are registered.
pub fn apply_triage(item: &InboxItem, triage: &TriageResult, known: &mut Vec<ProjectMeta>) -> (r: TriagePlan)
    ensures
        ({
            let acts = plan_actions_spec(triage.actions@.map_values(|a: crate::triage::RoutedAction| av(a)), pms(old(known)@));
            let es = triage.entries@;
            let gs = group_entities_spec(es, item.date@);
            let reg = register_spec(acts.0, gs);
            let has_personal = exists|i: int| 0 <= i < es.len() && es[i].scope@ == "personal"@;
            &&& opvs(r.page_ops@) == acts.1
            &&& sv(r.result.actions@) == acts.2
            &&& r.entry_writes@.map_values(|w: EntryWrite| wv(w)) == entry_writes_spec(acts.0, es, es, item.id@)
            &&& (has_personal <==> r.personal is Some)
            &&& (r.personal matches Some(ps) ==> ps@.map_values(|p: PersonalWrite| pwv(p)) == personal_writes_spec(es, item.text@))
            &&& r.entities@.map_values(|g: EntityWrite| ev(g)) == entity_writes_spec(gs, item.text@)
            &&& pms(final(known)@) == reg.0
            &&& sv(r.result.new_entities@) == reg.1
            &&& r.records.len() == es.len()
            &&& (forall|n: int| 0 <= n < es.len() ==> record_of(#[trigger] r.records@[n], es[n], *item, n as nat))
            &&& r.day_title@ == spec_primary_title(es, sv(triage.summary@))
            &&& r.day_body@ == spec_ensure_attachment_markdown(item.text@, spec_render_day_item_body(es))
            &&& sv(r.result.destinations@) == entry_dests(es) + (if has_personal { seq!["personal"@] } else { seq![] })
                + gs.map_values(|g: EModel| g.0 + "/"@ + g.1)
            &&& r.result.id@ == item.id@
            &&& r.result.date@ == item.date@
            &&& r.result.entry_count == es.len()
            &&& r.result.summary@ == triage.summary@
        }),
{
    let (page_ops, applied) = plan_actions(&triage.actions, known);
    let ghost k1 = pms(known@);
    let entries = &triage.entries;
    let mut writes: Vec<EntryWrite> = Vec::new();
    let mut dests: Vec<String> = Vec::new();
    let mut i: usize = 0;
    proof {
        assert(entries@.take(0) =~= Seq::<RoutedEntry>::empty());
        assert(writes@.map_values(|w: EntryWrite| wv(w)) =~= Seq::<WModel>::empty());
        assert(sv(dests@) =~= Seq::<Seq<char>>::empty());
    }
    while i < entries.len()
        invariant
            0 <= i <= entries.len(),
            k1 == pms(known@),
            writes@.map_values(|w: EntryWrite| wv(w)) == entry_writes_spec(k1, entries@, entries@.take(i as int), item.id@),
            sv(dests@) == entry_dests(entries@.take(i as int)),
        decreases entries.len() - i,
    {
        proof {
            assert(entries@.take(i + 1).drop_last() =~= entries@.take(i as int));
            assert(entries@.take(i + 1).last() == entries@[i as int]);
            assert(entries@.take(i + 1).len() - 1 == i);
        }
        let e = &entries[i];
        let id = entry_id(item.id.as_str(), i);
        let link = link_for(known, entries, e.slug.as_str());
        let kc = chars_of(e.kind.as_str());
        let ghost wb = writes@.map_values(|w: EntryWrite| wv(w));
        let ghost db = sv(dests@);
        if eq_str(&kc, "idea") {
            let w = EntryWrite::Idea { scope: e.scope.clone(), text: idea_text(e), entry_id: id, link };
            let ghost x = wv(w);
            writes.push(w);
            let mut d = chars_of("idea (");
            push_str(&mut d, e.scope.as_str());
            push_str(&mut d, ")");
            dests.push(to_string(&d));
            proof {
                assert(writes@.map_values(|w: EntryWrite| wv(w)) =~= wb.push(x));
                assert(sv(dests@) =~= db.push(d@));
            }
        } else if eq_str(&kc, "task") {
            let w = EntryWrite::Task { scope: e.scope.clone(), label: task_label(e), due: clone_opt(&e.due), entry_id: id, link };
            let ghost x = wv(w);
            writes.push(w);
            let mut d = chars_of("task (");
            push_str(&mut d, e.scope.as_str());
            push_str(&mut d, ")");
            dests.push(to_string(&d));
            proof {
                assert(writes@.map_values(|w: EntryWrite| wv(w)) =~= wb.push(x));
                assert(sv(dests@) =~= db.push(d@));
            }
        } else if !(eq_str(&kc, "project") || eq_str(&kc, "area")) {
            let mut d = chars_of("note (");
            push_str(&mut d, e.scope.as_str());
            push_str(&mut d, ")");
            dests.push(to_string(&d));
            proof {
                assert(sv(dests@) =~= db.push(d@));
            }
        }
        i += 1;
    }
    proof {
        assert(entries@.take(entries.len() as int) =~= entries@);
    }
    // Personal rollup: every personal-scoped entry also lands in personal.md.
    let mut personal: Vec<PersonalWrite> = Vec::new();
    let mut any_personal = false;
    let mut j: usize = 0;
    proof {
        assert(personal@.map_values(|p: PersonalWrite| pwv(p)) =~= Seq::<(Seq<char>, Seq<char>, Seq<char>)>::empty());
    }
    while j < entries.len()
        invariant
            0 <= j <= entries.len(),
            personal@.map_values(|p: PersonalWrite| pwv(p)) == personal_writes_spec(entries@.take(j as int), item.text@),
            any_personal <==> exists|k: int| 0 <= k < j && entries@[k].scope@ == "personal"@,
        decreases entries.len() - j,
    {
        proof {
            assert(entries@.take(j + 1).drop_last() =~= entries@.take(j as int));
            assert(entries@.take(j + 1).last() == entries@[j as int]);
        }
        let e = &entries[j];
        let sc = chars_of(e.scope.as_str());
        if eq_str(&sc, "personal") {
            let ghost pb = personal@.map_values(|p: PersonalWrite| pwv(p));
            let dest = destination(e.kind.as_str(), e.slug.as_str(), e.name.as_str());
            let w = PersonalWrite { title: e.title.clone(), dest, body: personal_body(e, item.text.as_str()) };
            let ghost x = pwv(w);
            personal.push(w);
            any_personal = true;
            proof {
                assert(personal@.map_values(|p: PersonalWrite| pwv(p)) =~= pb.push(x));
            }
        }
        j += 1;
    }
    proof {
        assert(entries@.take(entries.len() as int) =~= entries@);
    }
    if any_personal {
        let ghost db = sv(dests@);
        dests.push("personal".to_string());
        proof {
            assert(sv(dests@) =~= db.push("personal"@));
        }
    }
    // One write per page; the first carries the capture's attachments.
    let groups = group_entities(entries, item.date.as_str());
    let ghost gs = groups@.map_values(|g: EntityWrite| ev(g));
    let new_entities = register(known, &groups);
    let mut entities: Vec<EntityWrite> = Vec::new();
    let ghost dmid = sv(dests@);
    let mut k: usize = 0;
    while k < groups.len()
        invariant
            0 <= k <= groups.len(),
            gs == groups@.map_values(|g: EntityWrite| ev(g)),
            entities@.map_values(|g: EntityWrite| ev(g)) == entity_writes_spec(gs, item.text@).take(k as int),
            sv(dests@) == dmid + gs.take(k as int).map_values(|g: EModel| g.0 + "/"@ + g.1),
        decreases groups.len() - k,
    {
        let g = &groups[k];
        let body = if k == 0 {
            ensure_attachment_markdown(item.text.as_str(), g.body.as_str())
        } else {
            g.body.clone()
        };
        let w = EntityWrite { kind: g.kind.clone(), slug: g.slug.clone(), name: g.name.clone(), scope: g.scope.clone(), body };
        let ghost x = ev(w);
        let ghost eb = entities@.map_values(|g: EntityWrite| ev(g));
        entities.push(w);
        let mut d = chars_of(g.kind.as_str());
        push_str(&mut d, "/");
        push_str(&mut d, g.slug.as_str());
        let ghost db = sv(dests@);
        dests.push(to_string(&d));
        proof {
            reveal_strlit("/");
            assert(gs[k as int] == ev(groups@[k as int]));
            assert(x == entity_writes_spec(gs, item.text@)[k as int]);
            assert(entities@.map_values(|g: EntityWrite| ev(g)) =~= eb.push(x));
            assert(entity_writes_spec(gs, item.text@).take(k as int).push(x) =~= entity_writes_spec(gs, item.text@).take(k + 1));
            assert(entities@.map_values(|g: EntityWrite| ev(g)) =~= entity_writes_spec(gs, item.text@).take(k + 1));
            assert(d@ =~= gs[k as int].0 + "/"@ + gs[k as int].1);
            assert(sv(dests@) =~= db.push(d@));
            assert(gs.take(k + 1).map_values(|g: EModel| g.0 + "/"@ + g.1) =~= gs.take(k as int).map_values(|g: EModel| g.0 + "/"@ + g.1).push(d@));
            assert(sv(dests@) =~= dmid + gs.take(k + 1).map_values(|g: EModel| g.0 + "/"@ + g.1));
        }
        k += 1;
    }
    proof {
        assert(entity_writes_spec(gs, item.text@).take(groups.len() as int) =~= entity_writes_spec(gs, item.text@));
        assert(gs.take(groups.len() as int) =~= gs);
    }
    // The structured records: the markdown is the readable half, these are
    // what make "everything open on a project" a query.
    let mut records: Vec<EntryRecord> = Vec::new();
    let mut n: usize = 0;
    while n < entries.len()
        invariant
            0 <= n <= entries.len(),
            records.len() == n,
            forall|m: int| 0 <= m < n ==> record_of(#[trigger] records@[m], entries@[m], *item, m as nat),
        decreases entries.len() - n,
    {
        let r = entry_record(item, &entries[n], n);
        records.push(r);
        n += 1;
    }
    let rendered = render_day_item_body(entries);
    let day_body = ensure_attachment_markdown(item.text.as_str(), rendered.as_str());
    let day_title = primary_title(entries, &triage.summary);
    let result = ItemProcessResult {
        id: item.id.clone(),
        date: item.date.clone(),
        entry_count: entries.len(),
        destinations: dests,
        new_entities,
        summary: clone_strings(&triage.summary),
        actions: applied,
    };
    TriagePlan {
        page_ops,
        entry_writes: writes,
        personal: if any_personal {
            Some(personal)
        } else {
            None
        },
        entities,
        records,
        day_title,
        day_body,
        result,
    }
}


/// How many of the entries are personal.
pub open spec fn personal_count(es: Seq<RoutedEntry>) -> nat
    decreases es.len(),
{
    if es.len() == 0 {
        0
    } else {
        personal_count(es.drop_last()) + if es.last().scope@ == "personal"@ {
            1nat
        } else {
            0nat
        }
    }
}

proof fn lemma_personal_writes_len(es: Seq<RoutedEntry>, text: Seq<char>)
    ensures
        personal_writes_spec(es, text).len() == personal_count(es),
    decreases es.len(),
{
    if es.len() > 0 {
        lemma_personal_writes_len(es.drop_last(), text);
    }
}

/// The `personal.md` rollup files every personal entry, in entry order:
/// the personal entry at `i` is the write numbered by how many personal
/// entries come before it. The write carries the entry's title and where
/// it was filed, and its text is, for a task or idea (any kind but a note
/// or a page), the entry's body, or its title when the body is blank; for
/// a project or area entry with a blank body, a pointer to its page.
pub proof fn law_personal_rollup(es: Seq<RoutedEntry>, text: Seq<char>, i: int)
    requires
        0 <= i < es.len(),
        es[i].scope@ == "personal"@,
    ensures
        ({
            let e = es[i];
            let ws = personal_writes_spec(es, text);
            let k = personal_count(es.take(i)) as int;
            &&& ws.len() == personal_count(es)
            &&& k < ws.len()
            &&& ws[k].0 == e.title@
            &&& ws[k].1 == spec_destination(e.kind@, e.slug@, e.name@)
            &&& (e.kind@ != "note"@ && e.kind@ != "project"@ && e.kind@ != "area"@ && is_blank(e.body@)
                ==> ws[k].2 == e.title@)
            &&& (e.kind@ != "note"@ && e.kind@ != "project"@ && e.kind@ != "area"@ && !is_blank(e.body@)
                ==> ws[k].2 == e.body@)
            &&& ((e.kind@ == "project"@ || e.kind@ == "area"@) && is_blank(e.body@) ==> ws[k].2 == "See "@
                + spec_destination(e.kind@, e.slug@, e.name@))
            &&& ((e.kind@ == "project"@ || e.kind@ == "area"@) && !is_blank(e.body@) ==> ws[k].2
                == e.body@.take(if e.body@.len() < 280 { e.body@.len() as int } else { 280 }) + "\n\n→ "@
                + spec_destination(e.kind@, e.slug@, e.name@))
            &&& (e.kind@ == "note"@ ==> ws[k].2 == spec_ensure_attachment_markdown(text, e.body@))
        }),
    decreases es.len(),
{
    reveal_strlit("note");
    reveal_strlit("project");
    reveal_strlit("area");
    let n = es.len() - 1;
    let rest = personal_writes_spec(es.drop_last(), text);
    lemma_personal_writes_len(es.drop_last(), text);
    lemma_personal_writes_len(es, text);
    let e = es.last();
    let w = (e.title@, spec_destination(e.kind@, e.slug@, e.name@), spec_personal_body(e, text));
    if i == n {
        assert(es.take(i) =~= es.drop_last());
        assert(es.last() == es[i]);
        assert(personal_writes_spec(es, text) == rest.push(w));
        assert(rest.push(w)[rest.len() as int] == w);
        if (e.kind@ == "project"@ || e.kind@ == "area"@) && is_blank(e.body@) {
            assert(is_entity_kind(e.kind@));
            assert("project"@.len() == 7 && "area"@.len() == 4 && "note"@.len() == 4);
            assert("area"@[0] != "note"@[0]);
            assert(e.kind@ != "note"@);
            assert(spec_personal_body(e, text) == "See "@ + spec_destination(e.kind@, e.slug@, e.name@));
        }
        if (e.kind@ == "project"@ || e.kind@ == "area"@) && !is_blank(e.body@) {
            assert(is_entity_kind(e.kind@));
            assert("project"@.len() == 7 && "area"@.len() == 4 && "note"@.len() == 4);
            assert("area"@[0] != "note"@[0]);
            assert(e.kind@ != "note"@);
            if e.body@.len() < 280 {
                assert(e.body@.take(e.body@.len() as int) =~= e.body@);
            }
        }
    } else {
        assert(es.drop_last()[i] == es[i]);
        assert(es.drop_last().take(i) =~= es.take(i));
        law_personal_rollup(es.drop_last(), text, i);
        let k = personal_count(es.take(i)) as int;
        if e.scope@ == "personal"@ {
            assert(personal_writes_spec(es, text) == rest.push(w));
            assert(rest.push(w)[k] == rest[k]);
        } else {
            assert(personal_writes_spec(es, text) == rest);
        }
    }
}

} // verus!
