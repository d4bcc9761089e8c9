//! Structural instructions found in a capture: create, rename, move, set
//! status. They are the only writes driven by a model's reading of intent
//! rather than a click, so they are deliberately narrow (nothing here
//! deletes) and every one is reported back in plain words.
use crate::names::{slugify, spec_slugify};
use crate::projects::ProjectMeta;
use crate::text::{chars_of, eq, eq_str, push_all, push_str, sv, to_string, trim, trim_exec};
use crate::triage::RoutedAction;
use vstd::prelude::*;

verus! {

/// A registry row as a value: slug, name, kind, scope, status, parent,
/// aliases, description.
pub type PM = (Seq<char>, Seq<char>, Seq<char>, Seq<char>, Seq<char>, Seq<char>, Seq<Seq<char>>, Seq<char>);

pub open spec fn pm(p: ProjectMeta) -> PM {
    (p.slug@, p.name@, p.kind@, p.scope@, p.status@, p.parent@, sv(p.aliases@), p.description@)
}

pub open spec fn pms(s: Seq<ProjectMeta>) -> Seq<PM> {
    s.map_values(|p: ProjectMeta| pm(p))
}

/// A change to make to the vault's pages.
pub enum PageOp {
    /// Create an empty page and register it.
    Create { kind: String, name: String, scope: String },
    /// Put a page under another (the parent's slug).
    SetParent { kind: String, slug: String, parent: String },
    Rename { kind: String, slug: String, name: String },
    SetStatus { kind: String, slug: String, status: String },
}

/// A page change as a value: what, the page's kind and slug (the name for
/// a page being created), and the new value (scope, parent, name, status).
pub type OpModel = (int, Seq<char>, Seq<char>, Seq<char>);

pub open spec fn opv(o: PageOp) -> OpModel {
    match o {
        PageOp::Create { kind, name, scope } => (0, kind@, name@, scope@),
        PageOp::SetParent { kind, slug, parent } => (1, kind@, slug@, parent@),
        PageOp::Rename { kind, slug, name } => (2, kind@, slug@, name@),
        PageOp::SetStatus { kind, slug, status } => (3, kind@, slug@, status@),
    }
}

pub open spec fn opvs(s: Seq<PageOp>) -> Seq<OpModel> {
    s.map_values(|o: PageOp| opv(o))
}

/// An instruction as a value: op, name, kind, scope, slug, parent, status.
pub open spec fn av(a: RoutedAction) -> (Seq<char>, Seq<char>, Seq<char>, Seq<char>, Seq<char>, Seq<char>, Seq<char>) {
    (a.op@, a.name@, a.kind@, a.scope@, a.slug@, a.parent@, a.status@)
}

// ------------------------------------------------------------------ specs

/// The first registry row with this slug.
pub open spec fn find_slug(ks: Seq<PM>, slug: Seq<char>) -> Option<int>
    decreases ks.len(),
{
    if ks.len() == 0 {
        None
    } else if ks[0].0 == slug {
        Some(0)
    } else {
        match find_slug(ks.drop_first(), slug) {
            Some(k) => Some(k + 1),
            None => None,
        }
    }
}

/// The row a loosely written slug names (it is slugified first).
pub open spec fn resolve(ks: Seq<PM>, slug: Seq<char>) -> Option<int> {
    find_slug(ks, spec_slugify(slug))
}

/// A page's name for messages: its row's name, or the slug itself.
pub open spec fn page_name(ks: Seq<PM>, slug: Seq<char>) -> Seq<char> {
    match resolve(ks, slug) {
        Some(k) => ks[k].1,
        None => slug,
    }
}

pub open spec fn new_row(slug: Seq<char>, name: Seq<char>, kind: Seq<char>, scope: Seq<char>) -> PM {
    (slug, name, kind, scope, "active"@, seq![], seq![], seq![])
}

/// The state after one instruction: rows, changes, messages.
pub type ActState = (Seq<PM>, Seq<OpModel>, Seq<Seq<char>>);

pub open spec fn create_step(s: ActState, name: Seq<char>, kind0: Seq<char>, scope0: Seq<char>, parent0: Seq<char>) -> ActState {
    let (ks, ops, done) = s;
    let kind = if kind0 == "area"@ {
        "area"@
    } else {
        "project"@
    };
    let scope = if scope0 == "work"@ {
        "work"@
    } else {
        "personal"@
    };
    let slug = spec_slugify(name);
    if find_slug(ks, slug) is Some {
        (ks, ops, done.push(name + " already existed"@))
    } else {
        let parent = spec_slugify(parent0);
        let created = ops.push((0, kind, name, scope));
        let row = new_row(slug, name, kind, scope);
        if parent.len() > 0 && find_slug(ks, parent) is Some {
            (
                ks.push(row),
                created.push((1, kind, slug, parent)),
                done.push("created "@ + kind + " "@ + name + " under "@ + page_name(ks, parent)),
            )
        } else {
            (ks.push(row), created, done.push("created "@ + kind + " "@ + name))
        }
    }
}

pub open spec fn action_step(s: ActState, a: (Seq<char>, Seq<char>, Seq<char>, Seq<char>, Seq<char>, Seq<char>, Seq<char>)) -> ActState {
    let (ks, ops, done) = s;
    let (op, name0, kind0, scope0, slug0, parent0, status0) = a;
    if op == "create_page"@ {
        let name = trim(name0);
        if name.len() == 0 {
            s
        } else {
            create_step(s, name, kind0, scope0, parent0)
        }
    } else if op == "rename_page"@ {
        match resolve(ks, slug0) {
            Some(k) => {
                let m = ks[k];
                let name = trim(name0);
                if name.len() == 0 || name == m.1 {
                    s
                } else {
                    (
                        ks.update(k, (m.0, name, m.2, m.3, m.4, m.5, m.6, m.7)),
                        ops.push((2, m.2, m.0, name)),
                        done.push("renamed "@ + m.1 + " to "@ + name),
                    )
                }
            },
            None => s,
        }
    } else if op == "move_page"@ {
        match resolve(ks, slug0) {
            Some(k) => {
                let m = ks[k];
                let parent = spec_slugify(parent0);
                if parent.len() > 0 && find_slug(ks, parent) is None {
                    s
                } else {
                    let ks2 = ks.update(k, (m.0, m.1, m.2, m.3, m.4, parent, m.6, m.7));
                    (
                        ks2,
                        ops.push((1, m.2, m.0, parent)),
                        done.push(
                            if parent.len() == 0 {
                                "moved "@ + m.1 + " to the top level"@
                            } else {
                                "moved "@ + m.1 + " under "@ + page_name(ks2, parent)
                            },
                        ),
                    )
                }
            },
            None => s,
        }
    } else if op == "set_status"@ {
        match resolve(ks, slug0) {
            Some(k) => {
                let m = ks[k];
                let st = trim(status0);
                if st == "paused"@ || st == "done"@ || st == "active"@ {
                    (
                        ks.update(k, (m.0, m.1, m.2, m.3, st, m.5, m.6, m.7)),
                        ops.push((3, m.2, m.0, st)),
                        done.push("marked "@ + m.1 + " "@ + st),
                    )
                } else {
                    s
                }
            },
            None => s,
        }
    } else {
        s
    }
}

pub open spec fn plan_actions_spec(
    actions: Seq<(Seq<char>, Seq<char>, Seq<char>, Seq<char>, Seq<char>, Seq<char>, Seq<char>)>,
    ks: Seq<PM>,
) -> ActState
    decreases actions.len(),
{
    if actions.len() == 0 {
        (ks, seq![], seq![])
    } else {
        action_step(plan_actions_spec(actions.drop_last(), ks), actions.last())
    }
}

/// A row with its name (0), parent (1) or status (2) replaced.
pub open spec fn with_field(m: PM, field: u8, value: Seq<char>) -> PM {
    if field == 0 {
        (m.0, value, m.2, m.3, m.4, m.5, m.6, m.7)
    } else if field == 1 {
        (m.0, m.1, m.2, m.3, m.4, value, m.6, m.7)
    } else {
        (m.0, m.1, m.2, m.3, value, m.5, m.6, m.7)
    }
}

// ------------------------------------------------------------------ exec

pub fn find_slug_exec(known: &Vec<ProjectMeta>, slug: &[char]) -> (r: Option<usize>)
    ensures
        r matches Some(k) ==> find_slug(pms(known@), slug@) == Some(k as int) && k < known.len(),
        r is None ==> find_slug(pms(known@), slug@) is None,
{
    let ghost ks = pms(known@);
    let mut i: usize = 0;
    proof {
        assert(ks.skip(0) =~= ks);
    }
    while i < known.len()
        invariant
            0 <= i <= known.len(),
            ks == pms(known@),
            find_slug(ks, slug@) == match find_slug(ks.skip(i as int), slug@) {
                Some(j) => Some(j + i),
                None => None,
            },
        decreases known.len() - i,
    {
        proof {
            assert(ks.skip(i as int)[0] == pm(known@[i as int]));
            assert(ks.skip(i as int).drop_first() =~= ks.skip(i + 1));
        }
        let sc = chars_of(known[i].slug.as_str());
        if eq(&sc, slug) {
            return Some(i);
        }
        i += 1;
    }
    proof {
        assert(ks.skip(i as int) =~= Seq::<PM>::empty());
    }
    None
}

fn page_name_exec(known: &Vec<ProjectMeta>, slug: &str) -> (r: String)
    ensures
        r@ == page_name(pms(known@), slug@),
{
    let s = slugify(slug);
    let sc = chars_of(s.as_str());
    match find_slug_exec(known, &sc) {
        Some(k) => known[k].name.clone(),
        None => slug.to_string(),
    }
}

fn set_row(known: &mut Vec<ProjectMeta>, k: usize, field: u8, value: String)
    requires
        k < old(known).len(),
        field < 3,
    ensures
        pms(final(known)@) == pms(old(known)@).update(
            k as int,
            with_field(pm(old(known)@[k as int]), field, value@),
        ),
{
    let ghost before = known@;
    let mut row = known.remove(k);
    if field == 0 {
        row.name = value;
    } else if field == 1 {
        row.parent = value;
    } else {
        row.status = value;
    }
    let ghost rv = pm(row);
    known.insert(k, row);
    proof {
        assert(known@ =~= before.update(k as int, known@[k as int]));
        assert(pms(known@) =~= pms(before).update(k as int, rv));
    }
}

fn push_msg(done: &mut Vec<String>, parts: &Vec<char>)
    ensures
        sv(final(done)@) == sv(old(done)@).push(parts@),
{
    let s = to_string(parts);
    done.push(s);
    proof {
        assert(sv(done@) =~= sv(old(done)@).push(parts@));
    }
}

fn push_op(ops: &mut Vec<PageOp>, op: PageOp)
    ensures
        opvs(final(ops)@) == opvs(old(ops)@).push(opv(op)),
{
    let ghost o = opv(op);
    ops.push(op);
    proof {
        assert(opvs(ops@) =~= opvs(old(ops)@).push(o));
    }
}

/// Carry out a capture's structural instructions against the registry:
/// `known` is updated as the instructions go, and what comes back is the
/// page changes to make, in order, and a plain-words line for each one done
/// (or refused as already existing). Instructions that name nothing known,
/// or change nothing, are skipped.
pub fn plan_actions(actions: &[RoutedAction], known: &mut Vec<ProjectMeta>) -> (r: (Vec<PageOp>, Vec<String>))
    ensures
        (pms(final(known)@), opvs(r.0@), sv(r.1@)) == plan_actions_spec(
            actions@.map_values(|a: RoutedAction| av(a)),
            pms(old(known)@),
        ),
{
    let ghost acts = actions@.map_values(|a: RoutedAction| av(a));
    let ghost ks0 = pms(known@);
    let mut ops: Vec<PageOp> = Vec::new();
    let mut done: Vec<String> = Vec::new();
    let mut i: usize = 0;
    proof {
        assert(acts.take(0) =~= Seq::<(Seq<char>, Seq<char>, Seq<char>, Seq<char>, Seq<char>, Seq<char>, Seq<char>)>::empty());
        assert(opvs(ops@) =~= Seq::<OpModel>::empty());
        assert(sv(done@) =~= Seq::<Seq<char>>::empty());
    }
    while i < actions.len()
        invariant
            0 <= i <= actions.len(),
            acts == actions@.map_values(|a: RoutedAction| av(a)),
            (pms(known@), opvs(ops@), sv(done@)) == plan_actions_spec(acts.take(i as int), ks0),
        decreases actions.len() - i,
    {
        proof {
            assert(acts.take(i + 1).drop_last() =~= acts.take(i as int));
            assert(acts.take(i + 1).last() == av(actions@[i as int]));
        }
        let a = &actions[i];
        let opc = chars_of(a.op.as_str());
        if eq_str(&opc, "create_page") {
            let nc = chars_of(a.name.as_str());
            let name = trim_exec(&nc);
            if name.len() > 0 {
                let kc = chars_of(a.kind.as_str());
                let kind = if eq_str(&kc, "area") { "area" } else { "project" };
                let scc = chars_of(a.scope.as_str());
                let scope = if eq_str(&scc, "work") { "work" } else { "personal" };
                let name_s = to_string(&name);
                let slug = slugify(name_s.as_str());
                let slc = chars_of(slug.as_str());
                match find_slug_exec(known, &slc) {
                    Some(_) => {
                        let mut m = copy_chars(&name);
                        push_str(&mut m, " already existed");
                        push_msg(&mut done, &m);
                    },
                    None => {
                        let parent = slugify(a.parent.as_str());
                        let pc = chars_of(parent.as_str());
                        push_op(&mut ops, PageOp::Create { kind: kind.to_string(), name: name_s.clone(), scope: scope.to_string() });
                        let has_parent = pc.len() > 0 && find_slug_exec(known, &pc).is_some();
                        let mut m: Vec<char> = Vec::new();
                        push_str(&mut m, "created ");
                        push_str(&mut m, kind);
                        push_str(&mut m, " ");
                        push_all(&mut m, &name);
                        if has_parent {
                            push_op(&mut ops, PageOp::SetParent { kind: kind.to_string(), slug: slug.clone(), parent: parent.clone() });
                            push_str(&mut m, " under ");
                            let pname = page_name_exec(known, parent.as_str());
                            push_str(&mut m, pname.as_str());
                        }
                        push_msg(&mut done, &m);
                        let row = ProjectMeta {
                            slug,
                            name: name_s,
                            kind: kind.to_string(),
                            scope: scope.to_string(),
                            status: "active".to_string(),
                            parent: String::new(),
                            aliases: Vec::new(),
                            description: String::new(),
                        };
                        let ghost rv = pm(row);
                        let ghost kb = known@;
                        known.push(row);
                        proof {
                            assert(sv(Seq::<String>::empty()) =~= Seq::<Seq<char>>::empty());
                            assert(pms(known@) =~= pms(kb).push(rv));
                        }
                    },
                }
            }
        } else if eq_str(&opc, "rename_page") {
            let s = slugify(a.slug.as_str());
            let sc = chars_of(s.as_str());
            match find_slug_exec(known, &sc) {
                Some(k) => {
                    let nc = chars_of(a.name.as_str());
                    let name = trim_exec(&nc);
                    let old_name = chars_of(known[k].name.as_str());
                    if name.len() > 0 && !eq(&name, &old_name) {
                        push_op(&mut ops, PageOp::Rename { kind: known[k].kind.clone(), slug: known[k].slug.clone(), name: to_string(&name) });
                        let mut m: Vec<char> = Vec::new();
                        push_str(&mut m, "renamed ");
                        push_all(&mut m, &old_name);
                        push_str(&mut m, " to ");
                        push_all(&mut m, &name);
                        push_msg(&mut done, &m);
                        set_row(known, k, 0, to_string(&name));
                    }
                },
                None => {},
            }
        } else if eq_str(&opc, "move_page") {
            let s = slugify(a.slug.as_str());
            let sc = chars_of(s.as_str());
            match find_slug_exec(known, &sc) {
                Some(k) => {
                    let parent = slugify(a.parent.as_str());
                    let pc = chars_of(parent.as_str());
                    let missing = pc.len() > 0 && find_slug_exec(known, &pc).is_none();
                    if !missing {
                        let old_name = chars_of(known[k].name.as_str());
                        push_op(&mut ops, PageOp::SetParent { kind: known[k].kind.clone(), slug: known[k].slug.clone(), parent: parent.clone() });
                        set_row(known, k, 1, parent.clone());
                        let mut m: Vec<char> = Vec::new();
                        push_str(&mut m, "moved ");
                        push_all(&mut m, &old_name);
                        if pc.len() == 0 {
                            push_str(&mut m, " to the top level");
                        } else {
                            push_str(&mut m, " under ");
                            let pname = page_name_exec(known, parent.as_str());
                            push_str(&mut m, pname.as_str());
                        }
                        push_msg(&mut done, &m);
                    }
                },
                None => {},
            }
        } else if eq_str(&opc, "set_status") {
            let s = slugify(a.slug.as_str());
            let sc = chars_of(s.as_str());
            match find_slug_exec(known, &sc) {
                Some(k) => {
                    let stc = chars_of(a.status.as_str());
                    let st = trim_exec(&stc);
                    if eq_str(&st, "paused") || eq_str(&st, "done") || eq_str(&st, "active") {
                        let old_name = chars_of(known[k].name.as_str());
                        push_op(&mut ops, PageOp::SetStatus { kind: known[k].kind.clone(), slug: known[k].slug.clone(), status: to_string(&st) });
                        let mut m: Vec<char> = Vec::new();
                        push_str(&mut m, "marked ");
                        push_all(&mut m, &old_name);
                        push_str(&mut m, " ");
                        push_all(&mut m, &st);
                        push_msg(&mut done, &m);
                        set_row(known, k, 2, to_string(&st));
                    }
                },
                None => {},
            }
        }
        i += 1;
    }
    proof {
        assert(acts.take(actions.len() as int) =~= acts);
    }
    (ops, done)
}

fn copy_chars(s: &Vec<char>) -> (r: Vec<char>)
    ensures
        r@ == s@,
{
    crate::text::copy(s)
}

} // verus!
