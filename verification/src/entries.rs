//! The item layer: routed entries with their triage properties kept intact.
//!
//! Markdown pages stay the human-readable, hand-editable half of the vault.
//! This is the queryable half: "everything open on Daybook" is a filter, not
//! a grep. It is a build artifact derived from `raw/`, so it can be rebuilt.
//!
//! Capture-time facts (scope, slug, due, accomplished/decisions/open) live in
//! the records; the one piece of mutable state, a task being done, lives in
//! the markdown and is read back from `tasks.md`.
use crate::order::{in_order, key_order, sort_by_key, sorted_by_key, text_order, text_order_exec, SortKey};
use crate::text::{
    chars_of, decimal, decimal_exec, find, find_str, push_all, push_str, slice_of, starts_with,
    starts_with_str, to_string, trim, trim_bounds, trim_exec, trim_start, vv, lines, lines_of,
};
use vstd::prelude::*;

verus! {

/// Where a record came from: a triage pass.
pub const SOURCE_TRIAGE: &'static str = "triage";

/// Where a record came from: recovered from rendered markdown.
pub const SOURCE_RECOVERED: &'static str = "recovered";

#[derive(Clone, Debug)]
pub struct EntryRecord {
    /// Stable id, `{item_id}-e{n}`. Survives reprocessing of the same capture.
    pub id: String,
    /// The capture this was split out of.
    pub item_id: String,
    pub date: String,
    pub time: String,
    /// `personal` | `work`
    pub scope: String,
    /// `project` | `area` | `idea` | `task` | `note`
    pub kind: String,
    /// Owning project/area slug. Empty when the entry belongs to nothing.
    pub slug: String,
    pub name: String,
    pub title: String,
    pub body: String,
    pub accomplished: Vec<String>,
    pub decisions: Vec<String>,
    pub open: Vec<String>,
    pub due: Option<String>,
    /// `triage` or `recovered`.
    pub source: String,
}

/// A record plus the mutable state parsed back out of the markdown.
#[derive(Clone, Debug)]
pub struct EntryView {
    pub record: EntryRecord,
    /// Tasks only: whether the checkbox is ticked in `tasks.md`.
    pub done: bool,
}

#[derive(Default)]
pub struct EntryQuery {
    pub scope: Option<String>,
    pub kind: Option<String>,
    pub slug: Option<String>,
    pub date: Option<String>,
    /// Inclusive ISO lower bound.
    pub since: Option<String>,
    /// Only entries carrying unresolved `open` loops.
    pub open_only: bool,
    /// Tasks only: drop the ones already ticked off.
    pub undone_only: bool,
    pub limit: Option<usize>,
}

impl SortKey for EntryRecord {
    open spec fn sort_key(&self) -> Seq<Seq<char>> {
        seq![self.date@, self.time@, self.id@]
    }

    fn key(&self) -> (r: Vec<Vec<char>>) {
        let mut k: Vec<Vec<char>> = Vec::new();
        k.push(chars_of(self.date.as_str()));
        k.push(chars_of(self.time.as_str()));
        k.push(chars_of(self.id.as_str()));
        proof {
            assert(vv(k@) =~= seq![self.date@, self.time@, self.id@]);
        }
        k
    }
}

impl SortKey for EntryView {
    open spec fn sort_key(&self) -> Seq<Seq<char>> {
        seq![self.record.date@, self.record.time@]
    }

    fn key(&self) -> (r: Vec<Vec<char>>) {
        let mut k: Vec<Vec<char>> = Vec::new();
        k.push(chars_of(self.record.date.as_str()));
        k.push(chars_of(self.record.time.as_str()));
        proof {
            assert(vv(k@) =~= seq![self.record.date@, self.record.time@]);
        }
        k
    }
}

// ------------------------------------------------------------------ specs

pub open spec fn spec_entry_id(item_id: Seq<char>, n: nat) -> Seq<char> {
    item_id + "-e"@ + decimal(n)
}

/// The records that do not belong to capture `item_id`, in order.
pub open spec fn without_item(s: Seq<EntryRecord>, item_id: Seq<char>) -> Seq<EntryRecord>
    decreases s.len(),
{
    if s.len() == 0 {
        seq![]
    } else if s.last().item_id@ == item_id {
        without_item(s.drop_last(), item_id)
    } else {
        without_item(s.drop_last(), item_id).push(s.last())
    }
}

/// `{id}` out of the first `<!-- e:{id} -->` marker, if it is not blank.
pub open spec fn spec_marker_id(line: Seq<char>) -> Option<Seq<char>> {
    match find(line, "<!-- e:"@) {
        None => None,
        Some(s) => {
            let rest = line.skip(s + 7);
            match find(rest, "-->"@) {
                None => None,
                Some(e) => {
                    let id = trim(rest.take(e));
                    if id.len() == 0 {
                        None
                    } else {
                        Some(id)
                    }
                },
            }
        },
    }
}

/// The checkbox state of a task line: ticked, open, or not a task.
pub open spec fn checkbox_state(line: Seq<char>) -> Option<bool> {
    let t = trim_start(line);
    if starts_with(t, "- [x]"@) || starts_with(t, "- [X]"@) {
        Some(true)
    } else if starts_with(t, "- [ ]"@) {
        Some(false)
    } else {
        None
    }
}

/// Every marked task line of `tasks.md` as (entry id, done), in file order.
pub open spec fn task_pairs(ls: Seq<Seq<char>>) -> Seq<(Seq<char>, bool)>
    decreases ls.len(),
{
    if ls.len() == 0 {
        seq![]
    } else {
        let rest = task_pairs(ls.drop_last());
        match checkbox_state(ls.last()) {
            Some(done) => match spec_marker_id(trim_start(ls.last())) {
                Some(id) => rest.push((id, done)),
                None => rest,
            },
            None => rest,
        }
    }
}

/// Whether entry `id` is ticked off: the last line that carries its marker
/// decides; no such line means not done.
pub open spec fn task_done(pairs: Seq<(Seq<char>, bool)>, id: Seq<char>) -> bool
    decreases pairs.len(),
{
    if pairs.len() == 0 {
        false
    } else if pairs.last().0 == id {
        pairs.last().1
    } else {
        task_done(pairs.drop_last(), id)
    }
}

pub open spec fn opt_view(o: Option<String>) -> Option<Seq<char>> {
    match o {
        Some(s) => Some(s@),
        None => None,
    }
}

/// A filter field: absent or empty matches everything.
pub open spec fn field_matches(want: Option<Seq<char>>, have: Seq<char>) -> bool {
    match want {
        Some(w) => w.len() == 0 || have == w,
        None => true,
    }
}

pub open spec fn record_matches(r: EntryRecord, q: EntryQuery) -> bool {
    &&& field_matches(opt_view(q.scope), r.scope@)
    &&& field_matches(opt_view(q.kind), r.kind@)
    &&& field_matches(opt_view(q.slug), r.slug@)
    &&& field_matches(opt_view(q.date), r.date@)
    &&& match opt_view(q.since) {
        Some(s) => s.len() == 0 || text_order(r.date@, s) >= 0,
        None => true,
    }
    &&& !(q.open_only && r.open.len() == 0)
}

/// A matching record with its done state, kept unless it is a finished task
/// and the query hides those.
pub open spec fn view_kept(v: EntryView, q: EntryQuery) -> bool {
    !(q.undone_only && v.record.kind@ == "task"@ && v.done)
}

/// The views a query selects, in index order (before sorting).
pub open spec fn query_views(records: Seq<EntryRecord>, pairs: Seq<(Seq<char>, bool)>, q: EntryQuery) -> Seq<
    EntryView,
>
    decreases records.len(),
{
    if records.len() == 0 {
        seq![]
    } else {
        let rest = query_views(records.drop_last(), pairs, q);
        let r = records.last();
        let v = EntryView { record: r, done: task_done(pairs, r.id@) };
        if record_matches(r, q) && view_kept(v, q) {
            rest.push(v)
        } else {
            rest
        }
    }
}

pub open spec fn limit_take<T>(s: Seq<T>, limit: Option<usize>) -> Seq<T> {
    match limit {
        Some(n) => if n < s.len() {
            s.take(n as int)
        } else {
            s
        },
        None => s,
    }
}

// ------------------------------------------------------------------ exec

/// `{item_id}-e{n}`.
pub fn entry_id(item_id: &str, n: usize) -> (r: String)
    ensures
        r@ == spec_entry_id(item_id@, n as nat),
{
    let mut out: Vec<char> = Vec::new();
    push_str(&mut out, item_id);
    push_str(&mut out, "-e");
    let d = decimal_exec(n);
    push_all(&mut out, &d);
    to_string(&out)
}

fn keep_others(all: Vec<EntryRecord>, item_id: &str) -> (r: Vec<EntryRecord>)
    ensures
        r@ == without_item(all@, item_id@),
{
    let ghost a = all@;
    let idc = chars_of(item_id);
    let mut out: Vec<EntryRecord> = Vec::new();
    for rec in it: all.into_iter()
        invariant
            idc@ == item_id@,
            it.seq() == a,
            out@ == without_item(a.take(it.index() as int), item_id@),
    {
        proof {
            assert(a.take(it.index() + 1).drop_last() =~= a.take(it.index() as int));
        }
        let ic = chars_of(rec.item_id.as_str());
        if !crate::text::eq(&ic, &idc) {
            out.push(rec);
        }
    }
    proof {
        assert(a.take(a.len() as int) =~= a);
    }
    out
}

/// Replace every record belonging to one capture: the others, plus
/// `records`, sorted by (date, time, id). Reprocessing the same item updates
/// it in place instead of accumulating duplicates.
pub fn replace_item(all: Vec<EntryRecord>, item_id: &str, records: Vec<EntryRecord>) -> (r: Vec<
    EntryRecord,
>)
    ensures
        r@.to_multiset() == (without_item(all@, item_id@) + records@).to_multiset(),
        sorted_by_key(r@, false),
{
    let mut kept = keep_others(all, item_id);
    let mut fresh = records;
    kept.append(&mut fresh);
    sort_by_key(kept, false)
}

/// Drop a capture's records, for when an item is removed rather than
/// reprocessed. `None` when there was nothing to drop (the index is left as
/// it is).
pub fn remove_item(all: Vec<EntryRecord>, item_id: &str) -> (r: Option<Vec<EntryRecord>>)
    ensures
        r matches Some(v) ==> v@ == without_item(all@, item_id@) && v.len() < all.len(),
        r is None ==> without_item(all@, item_id@) == all@,
{
    let before = all.len();
    let ghost a = all@;
    let kept = keep_others(all, item_id);
    proof {
        lemma_without_item_len(a, item_id@);
    }
    if kept.len() == before {
        proof {
            lemma_without_item_same_len(a, item_id@);
        }
        return None;
    }
    Some(kept)
}

pub proof fn lemma_without_item_len(s: Seq<EntryRecord>, id: Seq<char>)
    ensures
        without_item(s, id).len() <= s.len(),
    decreases s.len(),
{
    if s.len() > 0 {
        lemma_without_item_len(s.drop_last(), id);
    }
}

pub proof fn lemma_without_item_same_len(s: Seq<EntryRecord>, id: Seq<char>)
    requires
        without_item(s, id).len() == s.len(),
    ensures
        without_item(s, id) == s,
    decreases s.len(),
{
    if s.len() > 0 {
        lemma_without_item_len(s.drop_last(), id);
        if s.last().item_id@ == id {
        } else {
            lemma_without_item_same_len(s.drop_last(), id);
            assert(s.drop_last().push(s.last()) =~= s);
        }
    }
}

/// How many copies of `r` the index `s` holds.
pub open spec fn copies(s: Seq<EntryRecord>, r: EntryRecord) -> nat {
    s.to_multiset().count(r)
}

/// Every record of `recs` belongs to capture `item_id`.
pub open spec fn all_of_item(recs: Seq<EntryRecord>, item_id: Seq<char>) -> bool {
    forall|i: int| 0 <= i < recs.len() ==> #[trigger] recs[i].item_id@ == item_id
}

proof fn lemma_without_item_copies(s: Seq<EntryRecord>, id: Seq<char>, r: EntryRecord)
    ensures
        copies(without_item(s, id), r) == if r.item_id@ == id {
            0
        } else {
            copies(s, r)
        },
    decreases s.len(),
{
    broadcast use vstd::seq_lib::group_to_multiset_ensures;
    broadcast use vstd::multiset::group_multiset_axioms;

    if s.len() > 0 {
        lemma_without_item_copies(s.drop_last(), id, r);
        assert(s.drop_last().push(s.last()) =~= s);
    }
}

proof fn lemma_all_of_item_copies(recs: Seq<EntryRecord>, id: Seq<char>, r: EntryRecord)
    requires
        all_of_item(recs, id),
        r.item_id@ != id,
    ensures
        copies(recs, r) == 0,
    decreases recs.len(),
{
    broadcast use vstd::seq_lib::group_to_multiset_ensures;
    broadcast use vstd::multiset::group_multiset_axioms;

    if recs.len() > 0 {
        let init = recs.drop_last();
        assert(all_of_item(init, id)) by {
            assert forall|i: int| 0 <= i < init.len() implies #[trigger] init[i].item_id@ == id by {
                assert(init[i] == recs[i]);
            }
        }
        lemma_all_of_item_copies(init, id, r);
        assert(recs.last().item_id@ == id);
        assert(init.push(recs.last()) =~= recs);
    }
}

/// After a capture is replaced by `recs` (all of them its own), the index
/// holds exactly `recs` for that capture, and every other capture's records
/// as they were.
pub proof fn law_replace_item_copies(
    all: Seq<EntryRecord>,
    item_id: Seq<char>,
    recs: Seq<EntryRecord>,
    after: Seq<EntryRecord>,
    r: EntryRecord,
)
    requires
        all_of_item(recs, item_id),
        after.to_multiset() == (without_item(all, item_id) + recs).to_multiset(),
    ensures
        r.item_id@ == item_id ==> copies(after, r) == copies(recs, r),
        r.item_id@ != item_id ==> copies(after, r) == copies(all, r),
{
    broadcast use vstd::seq_lib::lemma_multiset_commutative;
    broadcast use vstd::multiset::group_multiset_axioms;

    lemma_without_item_copies(all, item_id, r);
    if r.item_id@ != item_id {
        lemma_all_of_item_copies(recs, item_id, r);
    }
}

/// Reprocessing a capture replaces its records instead of accumulating
/// them: replacing with `first` and then with `second` leaves the index
/// holding the same records as replacing with `second` alone.
pub proof fn law_reprocessing_replaces(
    all: Seq<EntryRecord>,
    item_id: Seq<char>,
    first: Seq<EntryRecord>,
    second: Seq<EntryRecord>,
    once: Seq<EntryRecord>,
)
    requires
        all_of_item(first, item_id),
        once.to_multiset() == (without_item(all, item_id) + first).to_multiset(),
    ensures
        (without_item(once, item_id) + second).to_multiset() == (without_item(all, item_id)
            + second).to_multiset(),
{
    broadcast use vstd::seq_lib::lemma_multiset_commutative;
    broadcast use vstd::multiset::group_multiset_axioms;

    assert(without_item(once, item_id).to_multiset() =~= without_item(all, item_id).to_multiset())
        by {
        assert forall|r: EntryRecord|
            #![trigger without_item(once, item_id).to_multiset().count(r)]
            without_item(once, item_id).to_multiset().count(r) == without_item(
                all,
                item_id,
            ).to_multiset().count(r) by {
            lemma_without_item_copies(once, item_id, r);
            lemma_without_item_copies(all, item_id, r);
            law_replace_item_copies(all, item_id, first, once, r);
        }
    }
}

/// Removing a capture drops every record of it and keeps every other one.
pub proof fn law_remove_item_copies(all: Seq<EntryRecord>, item_id: Seq<char>, r: EntryRecord)
    ensures
        r.item_id@ == item_id ==> copies(without_item(all, item_id), r) == 0,
        r.item_id@ != item_id ==> copies(without_item(all, item_id), r) == copies(all, r),
{
    lemma_without_item_copies(all, item_id, r);
}

/// Pull `{id}` out of an `<!-- e:{id} -->` marker.
pub fn marker_id(line: &[char]) -> (r: Option<String>)
    ensures
        r matches Some(v) ==> spec_marker_id(line@) == Some(v@),
        r is None ==> spec_marker_id(line@) is None,
{
    let s = match find_str(line, "<!-- e:") {
        Some(s) => s,
        None => return None,
    };
    proof {
        reveal_strlit("<!-- e:");
        crate::text::lemma_find_props(line@, "<!-- e:"@);
        assert(s + 7 <= line@.len());
        assert(line@.len() == line.len());
    }
    let rest = slice_of(line, s + 7, line.len());
    let e = match find_str(&rest, "-->") {
        Some(e) => e,
        None => return None,
    };
    proof {
        crate::text::lemma_find_props(rest@, "-->"@);
    }
    let head = slice_of(&rest, 0, e);
    proof {
        assert(head@ =~= rest@.take(e as int));
    }
    let id = trim_exec(&head);
    if id.len() == 0 {
        None
    } else {
        Some(to_string(&id))
    }
}

fn checkbox_state_exec(line: &[char]) -> (r: Option<bool>)
    ensures
        r == checkbox_state(line@),
{
    let (lo, _) = trim_bounds(line);
    let t = slice_of(line, lo, line.len());
    if starts_with_str(&t, "- [x]") || starts_with_str(&t, "- [X]") {
        Some(true)
    } else if starts_with_str(&t, "- [ ]") {
        Some(false)
    } else {
        None
    }
}

/// Which task entries are ticked off, read back from the text of `tasks.md`:
/// (entry id, done) for every task line carrying a marker, in file order.
pub fn task_state(tasks_md: &str) -> (r: Vec<(String, bool)>)
    ensures
        r@.map_values(|p: (String, bool)| (p.0@, p.1)) == task_pairs(lines(tasks_md@)),
{
    let ls = lines_of(tasks_md);
    let ghost g = vv(ls@);
    let mut out: Vec<(String, bool)> = Vec::new();
    let mut i: usize = 0;
    while i < ls.len()
        invariant
            g == vv(ls@),
            g == lines(tasks_md@),
            0 <= i <= ls.len(),
            out@.map_values(|p: (String, bool)| (p.0@, p.1)) == task_pairs(g.take(i as int)),
        decreases ls.len() - i,
    {
        proof {
            let t = g.take(i + 1);
            assert(t.drop_last() =~= g.take(i as int));
            assert(t.last() == ls@[i as int]@);
        }
        if let Some(done) = checkbox_state_exec(&ls[i]) {
            let (lo, _) = trim_bounds(&ls[i]);
            let t = slice_of(&ls[i], lo, ls[i].len());
            if let Some(id) = marker_id(&t) {
                let ghost before = out@;
                out.push((id, done));
                proof {
                    assert(out@.map_values(|p: (String, bool)| (p.0@, p.1)) =~= before.map_values(
                        |p: (String, bool)| (p.0@, p.1),
                    ).push((id@, done)));
                }
            }
        }
        i += 1;
    }
    proof {
        assert(g.take(ls.len() as int) =~= g);
    }
    out
}

fn task_done_exec(pairs: &Vec<(String, bool)>, id: &[char]) -> (r: bool)
    ensures
        r == task_done(pairs@.map_values(|p: (String, bool)| (p.0@, p.1)), id@),
{
    let ghost g = pairs@.map_values(|p: (String, bool)| (p.0@, p.1));
    let mut i = pairs.len();
    proof {
        assert(g.take(i as int) =~= g);
    }
    while i > 0
        invariant
            i <= pairs.len(),
            g == pairs@.map_values(|p: (String, bool)| (p.0@, p.1)),
            task_done(g, id@) == task_done(g.take(i as int), id@),
        decreases i,
    {
        let pc = chars_of(pairs[i - 1].0.as_str());
        proof {
            assert(g.take(i as int).last() == (pairs@[i - 1].0@, pairs@[i - 1].1));
            assert(g.take(i as int).drop_last() =~= g.take(i - 1));
        }
        if crate::text::eq(&pc, id) {
            return pairs[i - 1].1;
        }
        i -= 1;
    }
    false
}

fn field_matches_exec(want: &Option<String>, have: &String) -> (r: bool)
    ensures
        r == field_matches(opt_view(*want), have@),
{
    match want {
        Some(w) => {
            let wc = chars_of(w.as_str());
            let hc = chars_of(have.as_str());
            wc.len() == 0 || crate::text::eq(&hc, &wc)
        },
        None => true,
    }
}

fn record_matches_exec(r: &EntryRecord, q: &EntryQuery) -> (b: bool)
    ensures
        b == record_matches(*r, *q),
{
    if !field_matches_exec(&q.scope, &r.scope) || !field_matches_exec(&q.kind, &r.kind)
        || !field_matches_exec(&q.slug, &r.slug) || !field_matches_exec(&q.date, &r.date) {
        return false;
    }
    match &q.since {
        Some(s) => {
            let sc = chars_of(s.as_str());
            let dc = chars_of(r.date.as_str());
            if sc.len() > 0 && text_order_exec(&dc, &sc) < 0 {
                return false;
            }
        },
        None => {},
    }
    !(q.open_only && r.open.len() == 0)
}

/// Entries matching the query, with each task's done state read back from
/// the text of `tasks.md`; newest first, at most `limit` of them.
pub fn query(records: Vec<EntryRecord>, tasks_md: &str, q: &EntryQuery) -> (r: Vec<EntryView>)
    ensures
        exists|s: Seq<EntryView>|
            s.to_multiset() == query_views(
                records@,
                task_pairs(lines(tasks_md@)),
                *q,
            ).to_multiset() && sorted_by_key(s, true) && r@ == limit_take(s, q.limit),
{
    let pairs = task_state(tasks_md);
    let ghost gp = task_pairs(lines(tasks_md@));
    let ghost a = records@;
    let mut views: Vec<EntryView> = Vec::new();
    for r in it: records.into_iter()
        invariant
            it.seq() == a,
            pairs@.map_values(|p: (String, bool)| (p.0@, p.1)) == gp,
            views@ == query_views(a.take(it.index() as int), gp, *q),
    {
        proof {
            assert(a.take(it.index() + 1).drop_last() =~= a.take(it.index() as int));
        }
        let idc = chars_of(r.id.as_str());
        let done = task_done_exec(&pairs, &idc);
        let kc = chars_of(r.kind.as_str());
        let is_task = crate::text::eq_str(&kc, "task");
        if record_matches_exec(&r, q) && !(q.undone_only && is_task && done) {
            views.push(EntryView { record: r, done });
        }
    }
    proof {
        assert(a.take(a.len() as int) =~= a);
    }
    let mut sorted = sort_by_key(views, true);
    let ghost full = sorted@;
    match q.limit {
        Some(n) => {
            if n < sorted.len() {
                sorted.truncate(n);
            }
        },
        None => {},
    }
    proof {
        assert(sorted@ == limit_take(full, q.limit));
    }
    sorted
}


/// Every view a query selects meets each of its non-empty filters: the
/// record's scope, kind, slug and date equal the ones asked for, and its
/// date is not before `since`.
pub proof fn law_query_views_meet_the_filters(
    records: Seq<EntryRecord>,
    pairs: Seq<(Seq<char>, bool)>,
    q: EntryQuery,
    k: int,
)
    requires
        0 <= k < query_views(records, pairs, q).len(),
    ensures
        ({
            let r = query_views(records, pairs, q)[k].record;
            &&& (q.scope matches Some(s) ==> (s@.len() > 0 ==> r.scope@ == s@))
            &&& (q.kind matches Some(s) ==> (s@.len() > 0 ==> r.kind@ == s@))
            &&& (q.slug matches Some(s) ==> (s@.len() > 0 ==> r.slug@ == s@))
            &&& (q.date matches Some(s) ==> (s@.len() > 0 ==> r.date@ == s@))
            &&& (q.since matches Some(s) ==> (s@.len() > 0 ==> text_order(r.date@, s@) >= 0))
            &&& (q.open_only ==> r.open.len() > 0)
            &&& records.contains(r)
        }),
    decreases records.len(),
{
    let rest = query_views(records.drop_last(), pairs, q);
    let r = records.last();
    let v = EntryView { record: r, done: task_done(pairs, r.id@) };
    if record_matches(r, q) && view_kept(v, q) && k == rest.len() {
        assert(query_views(records, pairs, q)[k] == v);
        assert(records[records.len() - 1] == r);
    } else {
        assert(query_views(records, pairs, q)[k] == rest[k]);
        law_query_views_meet_the_filters(records.drop_last(), pairs, q, k);
        let x = rest[k].record;
        let j = choose|j: int| 0 <= j < records.drop_last().len() && records.drop_last()[j] == x;
        assert(records[j] == x);
    }
}

/// What a query returns meets its non-empty filters: whatever order the
/// selected views are sorted into and however many the limit keeps, each
/// returned record has the scope, kind, slug and date asked for.
pub proof fn law_query_meets_the_filters(
    records: Seq<EntryRecord>,
    pairs: Seq<(Seq<char>, bool)>,
    q: EntryQuery,
    s: Seq<EntryView>,
    k: int,
)
    requires
        s.to_multiset() == query_views(records, pairs, q).to_multiset(),
        0 <= k < limit_take(s, q.limit).len(),
    ensures
        ({
            let r = limit_take(s, q.limit)[k].record;
            &&& (q.scope matches Some(x) ==> (x@.len() > 0 ==> r.scope@ == x@))
            &&& (q.kind matches Some(x) ==> (x@.len() > 0 ==> r.kind@ == x@))
            &&& (q.slug matches Some(x) ==> (x@.len() > 0 ==> r.slug@ == x@))
            &&& (q.date matches Some(x) ==> (x@.len() > 0 ==> r.date@ == x@))
        }),
{
    broadcast use vstd::seq_lib::group_to_multiset_ensures;
    let v = limit_take(s, q.limit)[k];
    assert(s.contains(v)) by {
        match q.limit {
            Some(n) => {
                if n < s.len() {
                    assert(s.take(n as int)[k] == s[k]);
                }
            },
            None => {},
        }
    }
    let qv = query_views(records, pairs, q);
    assert(s.to_multiset().count(v) > 0);
    assert(qv.to_multiset().count(v) > 0);
    assert(qv.contains(v));
    let j = choose|j: int| 0 <= j < qv.len() && qv[j] == v;
    law_query_views_meet_the_filters(records, pairs, q, j);
}


/// A query leaves out no record it should select: a record that meets every
/// non-empty filter, and is not a finished task the query hides, is among
/// the selected views, with the done state `tasks.md` gives it.
pub proof fn law_query_views_are_complete(
    records: Seq<EntryRecord>,
    pairs: Seq<(Seq<char>, bool)>,
    q: EntryQuery,
    j: int,
)
    requires
        0 <= j < records.len(),
        q.scope matches Some(x) ==> (x@.len() > 0 ==> records[j].scope@ == x@),
        q.kind matches Some(x) ==> (x@.len() > 0 ==> records[j].kind@ == x@),
        q.slug matches Some(x) ==> (x@.len() > 0 ==> records[j].slug@ == x@),
        q.date matches Some(x) ==> (x@.len() > 0 ==> records[j].date@ == x@),
        q.since matches Some(x) ==> (x@.len() > 0 ==> text_order(records[j].date@, x@) >= 0),
        q.open_only ==> records[j].open.len() > 0,
        !(q.undone_only && records[j].kind@ == "task"@ && task_done(pairs, records[j].id@)),
    ensures
        query_views(records, pairs, q).contains(
            EntryView { record: records[j], done: task_done(pairs, records[j].id@) },
        ),
    decreases records.len(),
{
    let n = records.len() - 1;
    let rest = query_views(records.drop_last(), pairs, q);
    let r = records.last();
    let v = EntryView { record: r, done: task_done(pairs, r.id@) };
    if j == n {
        assert(records[j] == r);
        assert(record_matches(r, q));
        assert(view_kept(v, q));
        assert(query_views(records, pairs, q) == rest.push(v));
        assert(rest.push(v)[rest.len() as int] == v);
    } else {
        assert(records.drop_last()[j] == records[j]);
        law_query_views_are_complete(records.drop_last(), pairs, q, j);
        let w = EntryView { record: records[j], done: task_done(pairs, records[j].id@) };
        let k = choose|k: int| 0 <= k < rest.len() && rest[k] == w;
        if record_matches(r, q) && view_kept(v, q) {
            assert(query_views(records, pairs, q) == rest.push(v));
            assert(rest.push(v)[k] == w);
        }
    }
}

/// A query returns at most `limit` views, and all of the selected ones
/// when there are no more than that.
pub proof fn law_query_respects_the_limit(
    records: Seq<EntryRecord>,
    pairs: Seq<(Seq<char>, bool)>,
    q: EntryQuery,
    s: Seq<EntryView>,
)
    requires
        s.to_multiset() == query_views(records, pairs, q).to_multiset(),
    ensures
        q.limit matches Some(n) ==> limit_take(s, q.limit).len() == if n < query_views(records, pairs, q).len() {
            n as int
        } else {
            query_views(records, pairs, q).len() as int
        },
        q.limit is None ==> limit_take(s, q.limit).len() == query_views(records, pairs, q).len(),
{
    broadcast use vstd::seq_lib::group_to_multiset_ensures;
    assert(s.len() == s.to_multiset().len());
    assert(query_views(records, pairs, q).len() == query_views(records, pairs, q).to_multiset().len());
}

} // verus!
