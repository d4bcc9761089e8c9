//! Draining the inbox: which captures a run takes, and which pages have
//! their standing Overview rewritten once the batch is filed (only the pages
//! it touched).
use crate::actions::{find_slug, find_slug_exec, pms, PM};
use crate::filing::ItemProcessResult;
use crate::history::InboxItem;
use crate::projects::ProjectMeta;
use crate::tasks::opt_str;
use crate::text::{chars_of, eq, eq_str, split_once, split_once_str, sv, to_string};
use vstd::prelude::*;

verus! {

/// Reported when a run has nothing to file.
pub const INBOX_EMPTY: &'static str = "Inbox is empty.";

/// Reported when the one capture asked for is not in the inbox.
pub const ITEM_NOT_FOUND: &'static str = "Inbox item not found.";

/// A capture is taken when it is of `date` and is `id`, where those are given.
pub open spec fn keeps(i: InboxItem, date: Option<Seq<char>>, id: Option<Seq<char>>) -> bool {
    &&& date matches Some(d) ==> i.date@ == d
    &&& id matches Some(x) ==> i.id@ == x
}

/// The captures a run takes, in inbox order.
pub open spec fn selected(s: Seq<InboxItem>, date: Option<Seq<char>>, id: Option<Seq<char>>) -> Seq<InboxItem>
    decreases s.len(),
{
    if s.len() == 0 {
        seq![]
    } else {
        let r = selected(s.drop_last(), date, id);
        if keeps(s.last(), date, id) {
            r.push(s.last())
        } else {
            r
        }
    }
}

/// The captures a run files: those of `date` and with `id` when given. When
/// none is left, the message the run reports instead.
pub fn drain_selection(items: Vec<InboxItem>, date: Option<&str>, id: Option<&str>) -> (r: Result<Vec<InboxItem>, String>)
    ensures
        r matches Ok(v) ==> v@ == selected(items@, opt_str(date), opt_str(id)) && v@.len() > 0,
        r matches Err(e) ==> selected(items@, opt_str(date), opt_str(id)).len() == 0 && e@ == (if id is Some {
            ITEM_NOT_FOUND@
        } else {
            INBOX_EMPTY@
        }),
{
    let ghost s = items@;
    let ghost dm = opt_str(date);
    let ghost im = opt_str(id);
    let mut out: Vec<InboxItem> = Vec::new();
    for it in iter: items.into_iter()
        invariant
            iter.seq() == s,
            dm == opt_str(date),
            im == opt_str(id),
            out@ == selected(s.take(iter.index() as int), dm, im),
    {
        proof {
            assert(s.take(iter.index() + 1).drop_last() =~= s.take(iter.index() as int));
            assert(s.take(iter.index() + 1).last() == it);
        }
        let date_ok = match date {
            Some(d) => eq_str(&chars_of(it.date.as_str()), d),
            None => true,
        };
        let id_ok = match id {
            Some(x) => eq_str(&chars_of(it.id.as_str()), x),
            None => true,
        };
        if date_ok && id_ok {
            out.push(it);
        }
    }
    proof {
        assert(s.take(s.len() as int) =~= s);
    }
    if out.len() == 0 {
        if id.is_some() {
            Err(ITEM_NOT_FOUND.to_string())
        } else {
            Err(INBOX_EMPTY.to_string())
        }
    } else {
        Ok(out)
    }
}

/// A page whose Overview is rewritten after a run.
pub struct TouchedPage {
    /// `project` or `area`.
    pub kind: String,
    pub slug: String,
    /// The registered name, or the slug when the page is not registered.
    pub name: String,
}

/// The page a destination names, when it is a project or an area.
pub open spec fn dest_page(d: Seq<char>) -> Option<(Seq<char>, Seq<char>)> {
    match split_once(d, "/"@) {
        Some((k, s)) => if k == "project"@ || k == "area"@ {
            Some((k, s))
        } else {
            None
        },
        None => None,
    }
}

/// Every destination a batch reports, in order.
pub open spec fn all_dests(ps: Seq<ItemProcessResult>) -> Seq<Seq<char>>
    decreases ps.len(),
{
    if ps.len() == 0 {
        seq![]
    } else {
        all_dests(ps.drop_last()) + sv(ps.last().destinations@)
    }
}

/// The pages touched so far, each once in the order first seen, and whether
/// the personal page was.
pub type Touched = (Seq<(Seq<char>, Seq<char>)>, bool);

pub open spec fn touched_step(t: Touched, d: Seq<char>) -> Touched {
    let personal = t.1 || d == "personal"@;
    match dest_page(d) {
        Some(p) => if t.0.contains(p) {
            (t.0, personal)
        } else {
            (t.0.push(p), personal)
        },
        None => (t.0, personal),
    }
}

pub open spec fn touched_scan(ds: Seq<Seq<char>>) -> Touched
    decreases ds.len(),
{
    if ds.len() == 0 {
        (seq![], false)
    } else {
        touched_step(touched_scan(ds.drop_last()), ds.last())
    }
}

/// The name a page is refreshed under: its registry row's, else its slug.
pub open spec fn page_name(ks: Seq<PM>, slug: Seq<char>) -> Seq<char> {
    match find_slug(ks, slug) {
        Some(k) => ks[k].1,
        None => slug,
    }
}

pub open spec fn tpv(ps: Seq<TouchedPage>) -> Seq<(Seq<char>, Seq<char>)> {
    ps.map_values(|p: TouchedPage| (p.kind@, p.slug@))
}

/// Adds destination `d` to what a batch touched.
fn touch(pages: &mut Vec<TouchedPage>, personal: &mut bool, d: &str, known: &Vec<ProjectMeta>)
    requires
        forall|k: int| 0 <= k < old(pages)@.len() ==> (#[trigger] old(pages)@[k]).name@ == page_name(pms(known@), old(pages)@[k].slug@),
    ensures
        (tpv(final(pages)@), *final(personal)) == touched_step((tpv(old(pages)@), *old(personal)), d@),
        forall|k: int| 0 <= k < final(pages)@.len() ==> (#[trigger] final(pages)@[k]).name@ == page_name(pms(known@), final(pages)@[k].slug@),
{
    let dc = chars_of(d);
    if eq_str(&dc, "personal") {
        *personal = true;
    }
    proof {
        reveal_strlit("personal");
    }
    match split_once_str(&dc, "/") {
        Some((k, s)) => {
            if eq_str(&k, "project") || eq_str(&k, "area") {
                let mut i: usize = 0;
                let mut seen = false;
                while i < pages.len() && !seen
                    invariant
                        0 <= i <= pages.len(),
                        pages@ == old(pages)@,
                        seen ==> i < pages.len() && tpv(pages@)[i as int] == (k@, s@),
                        forall|j: int| 0 <= j < i ==> tpv(pages@)[j] != (k@, s@),
                    decreases pages.len() - i + (if seen { 0int } else { 1int }),
                {
                    if eq(&chars_of(pages[i].kind.as_str()), &k) && eq(&chars_of(pages[i].slug.as_str()), &s) {
                        seen = true;
                    } else {
                        i += 1;
                    }
                }
                if seen {
                    proof {
                        assert(tpv(pages@).contains((k@, s@)));
                    }
                } else {
                    proof {
                        assert(!tpv(pages@).contains((k@, s@)));
                    }
                    let name = match find_slug_exec(known, &s) {
                        Some(j) => known[j].name.clone(),
                        None => to_string(&s),
                    };
                    pages.push(TouchedPage { kind: to_string(&k), slug: to_string(&s), name });
                    proof {
                        assert(tpv(pages@) =~= tpv(old(pages)@).push((k@, s@)));
                    }
                }
            }
        },
        None => {},
    }
}

/// The pages a batch of filed captures touched, whose Overview is rewritten
/// after it: each project and area destination once, in the order first
/// seen, under its registered name; and whether `personal.md` was touched.
pub fn touched_pages(processed: &[ItemProcessResult], known: &Vec<ProjectMeta>) -> (r: (Vec<TouchedPage>, bool))
    ensures
        (tpv(r.0@), r.1) == touched_scan(all_dests(processed@)),
        forall|k: int| 0 <= k < r.0@.len() ==> (#[trigger] r.0@[k]).name@ == page_name(pms(known@), r.0@[k].slug@),
{
    let mut pages: Vec<TouchedPage> = Vec::new();
    let mut personal = false;
    let mut i: usize = 0;
    proof {
        assert(processed@.take(0) =~= Seq::<ItemProcessResult>::empty());
        assert(tpv(pages@) =~= Seq::<(Seq<char>, Seq<char>)>::empty());
    }
    while i < processed.len()
        invariant
            0 <= i <= processed.len(),
            (tpv(pages@), personal) == touched_scan(all_dests(processed@.take(i as int))),
            forall|k: int| 0 <= k < pages@.len() ==> (#[trigger] pages@[k]).name@ == page_name(pms(known@), pages@[k].slug@),
        decreases processed.len() - i,
    {
        let ds = &processed[i].destinations;
        let ghost before = all_dests(processed@.take(i as int));
        let mut j: usize = 0;
        proof {
            assert(before + sv(ds@).take(0) =~= before);
        }
        while j < ds.len()
            invariant
                0 <= j <= ds.len(),
                ds@ == processed@[i as int].destinations@,
                (tpv(pages@), personal) == touched_scan(before + sv(ds@).take(j as int)),
                forall|k: int| 0 <= k < pages@.len() ==> (#[trigger] pages@[k]).name@ == page_name(pms(known@), pages@[k].slug@),
            decreases ds.len() - j,
        {
            proof {
                let x = before + sv(ds@).take(j + 1);
                assert(x.drop_last() =~= before + sv(ds@).take(j as int));
                assert(x.last() == ds@[j as int]@);
            }
            touch(&mut pages, &mut personal, ds[j].as_str(), known);
            j += 1;
        }
        proof {
            assert(sv(ds@).take(ds@.len() as int) =~= sv(ds@));
            assert(processed@.take(i + 1).drop_last() =~= processed@.take(i as int));
            assert(processed@.take(i + 1).last() == processed@[i as int]);
        }
        i += 1;
    }
    proof {
        assert(processed@.take(processed@.len() as int) =~= processed@);
    }
    (pages, personal)
}

} // verus!
