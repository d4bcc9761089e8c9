//! Carrying out a filing plan. The writes go in a fixed order (page
//! changes, idea and task lines, `personal.md`, project and area pages, the
//! registry, the raw archive, the item index, the day note) and the inbox
//! file is removed last, only once every write before it went through. A
//! failed write stops the run, and the capture stays in the inbox.
use crate::filing::TriagePlan;
use vstd::prelude::*;

verus! {

/// The next thing to do with a plan.
#[derive(Clone, Debug)]
pub enum WriteStep {
    /// Carry out `page_ops[i]`.
    PageOp(usize),
    /// Append `entry_writes[i]` to `ideas.md` or `tasks.md`.
    EntryWrite(usize),
    /// Clear the capture from `personal.md`.
    ClearPersonal,
    /// File `personal[i]` on `personal.md`.
    PersonalWrite(usize),
    /// File `entities[i]` on its project or area page.
    EntityWrite(usize),
    /// Write the registry.
    Registry,
    /// Append the capture to its raw file.
    ArchiveRaw,
    /// Put the capture's records into the item index.
    Records,
    /// File the capture on its day note.
    DayNote,
    /// Remove the capture from the inbox.
    DeleteInbox,
    /// A write failed: stop, and leave the capture in the inbox.
    Stop(String),
    /// Everything is done.
    Finished,
}

pub open spec fn personal_len(plan: TriagePlan) -> nat {
    match plan.personal {
        Some(ps) => ps@.len() + 1,
        None => 0,
    }
}

/// How many writes a plan makes before the inbox file is removed.
pub open spec fn write_count(plan: TriagePlan) -> nat {
    plan.page_ops@.len() + plan.entry_writes@.len() + personal_len(plan) + plan.entities@.len() + 4
}

/// The `k`-th write of a plan, counted from 0, for `k < write_count(plan)`.
pub open spec fn write_at(plan: TriagePlan, k: int) -> WriteStep {
    let p = plan.page_ops@.len() as int;
    let e = plan.entry_writes@.len() as int;
    let q = personal_len(plan) as int;
    let n = plan.entities@.len() as int;
    if k < p {
        WriteStep::PageOp(k as usize)
    } else if k < p + e {
        WriteStep::EntryWrite((k - p) as usize)
    } else if k < p + e + q {
        if k == p + e {
            WriteStep::ClearPersonal
        } else {
            WriteStep::PersonalWrite((k - p - e - 1) as usize)
        }
    } else if k < p + e + q + n {
        WriteStep::EntityWrite((k - p - e - q) as usize)
    } else if k == p + e + q + n {
        WriteStep::Registry
    } else if k == p + e + q + n + 1 {
        WriteStep::ArchiveRaw
    } else if k == p + e + q + n + 2 {
        WriteStep::Records
    } else {
        WriteStep::DayNote
    }
}

/// What comes after `done` steps, the last of which ended with `last`.
pub open spec fn spec_next_write(plan: TriagePlan, done: nat, last: Result<(), String>) -> WriteStep {
    match last {
        Err(e) => WriteStep::Stop(e),
        Ok(_) => if done < write_count(plan) {
            write_at(plan, done as int)
        } else if done == write_count(plan) {
            WriteStep::DeleteInbox
        } else {
            WriteStep::Finished
        },
    }
}

pub open spec fn is_stop(a: WriteStep) -> bool {
    a is Stop
}

/// The next step of a run over `plan`, after `done` steps of which the last
/// ended with `last` (`Ok` before the first): the write that comes next in
/// order; removing the inbox file once every write is done; `Finished` after
/// that; and `Stop` with the error as soon as a step failed.
pub fn next_write(plan: &TriagePlan, done: usize, last: Result<(), String>) -> (a: WriteStep)
    ensures
        match last {
            Err(e) => a == WriteStep::Stop(e),
            Ok(_) => if done < write_count(*plan) {
                a == write_at(*plan, done as int)
            } else if done == write_count(*plan) {
                a == WriteStep::DeleteInbox
            } else {
                a == WriteStep::Finished
            },
        },
{
    match last {
        Err(e) => return WriteStep::Stop(e),
        Ok(_) => {},
    }
    let p = plan.page_ops.len();
    let e = plan.entry_writes.len();
    let n = plan.entities.len();
    let mut k = done;
    if k < p {
        return WriteStep::PageOp(k);
    }
    k = k - p;
    if k < e {
        return WriteStep::EntryWrite(k);
    }
    k = k - e;
    match &plan.personal {
        Some(ps) => {
            if k == 0 {
                return WriteStep::ClearPersonal;
            }
            if k - 1 < ps.len() {
                return WriteStep::PersonalWrite(k - 1);
            }
            k = k - 1 - ps.len();
        },
        None => {},
    }
    if k < n {
        return WriteStep::EntityWrite(k);
    }
    k = k - n;
    if k == 0 {
        WriteStep::Registry
    } else if k == 1 {
        WriteStep::ArchiveRaw
    } else if k == 2 {
        WriteStep::Records
    } else if k == 3 {
        WriteStep::DayNote
    } else if k == 4 {
        WriteStep::DeleteInbox
    } else {
        WriteStep::Finished
    }
}

/// The step a run issues after `k` steps, the `j`-th of which ended with
/// `outcomes[j]`.
pub open spec fn issued(plan: TriagePlan, outcomes: Seq<Result<(), String>>, k: nat) -> WriteStep {
    if k == 0 {
        spec_next_write(plan, 0, Ok(()))
    } else {
        spec_next_write(plan, k, outcomes[k - 1])
    }
}

/// The inbox file goes last: in a run driven by `next_write`, the step that
/// removes the capture from the inbox comes only after every write of the
/// plan, each of which went through; and a write that fails stops the run
/// right after it, so the capture is never removed after a failure.
pub proof fn law_inbox_goes_last(plan: TriagePlan, outcomes: Seq<Result<(), String>>, k: nat)
    requires
        k <= outcomes.len(),
    ensures
        issued(plan, outcomes, k) == WriteStep::DeleteInbox ==> k == write_count(plan) && outcomes[k - 1] is Ok,
        issued(plan, outcomes, k) == WriteStep::DeleteInbox && (forall|j: nat| j < k ==> !is_stop(#[trigger] issued(plan, outcomes, j)))
            ==> forall|j: int| 0 <= j < k ==> (#[trigger] outcomes[j]) is Ok,
        k > 0 && outcomes[k - 1] is Err ==> issued(plan, outcomes, k) is Stop,
{
    if issued(plan, outcomes, k) == WriteStep::DeleteInbox {
        assert forall|j: int| 0 <= j < k implies write_at(plan, j) != WriteStep::DeleteInbox by {}
        if forall|j: nat| j < k ==> !is_stop(#[trigger] issued(plan, outcomes, j)) {
            assert forall|j: int| 0 <= j < k implies (#[trigger] outcomes[j]) is Ok by {
                if j + 1 < k {
                    assert(!is_stop(issued(plan, outcomes, (j + 1) as nat)));
                }
            }
        }
    }
}

} // verus!
