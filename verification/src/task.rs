//! The task data model: a unit of deferred work, its call reference, its
//! identity inside the task store, and the order in which an agenda runs.

use vstd::prelude::*;
use crate::weight::Weight;

verus! {

/// Whether an agenda entry is still due, or a tombstone awaiting purge.
/// Aborted entries are never dispatched.
#[derive(Clone, Copy, PartialEq, Eq, Debug)]
pub enum TaskStatus {
    Pending,
    Aborted,
}

/// What the engine needs of a resolved call. The dispatcher is external,
/// synchronous and deterministic, so a call's outcome is a function of the
/// call itself: its estimated cost, whether dispatching it succeeds, and the
/// cost it actually consumes (at most the estimate in practice, though the
/// engine does not rely on that).
#[derive(Clone, Copy, PartialEq, Eq, Debug)]
pub struct Call {
    pub cost: Weight,
    pub succeeds: bool,
    pub actual_cost: Weight,
}

/// A call reference: either an inline call, or a content hash to be resolved
/// through the preimage store at execution time.
#[derive(Clone, Copy, PartialEq, Eq, Debug)]
pub enum CallRef {
    Inline(Call),
    Hashed(u64),
}

/// A periodic re-arm rule: the task re-enters the agenda `interval` steps
/// after each execution. `remaining` counts how many re-arms are left;
/// `None` means the task re-arms forever.
#[derive(Clone, Copy, PartialEq, Eq, Debug)]
pub struct Period {
    pub interval: u64,
    pub remaining: Option<u64>,
}

/// A task's location in the task store: the step whose agenda holds it, and
/// its position inside that agenda. Stable until the task moves or is
/// removed.
#[derive(Clone, Copy, PartialEq, Eq, Structural, Debug)]
pub struct TaskId {
    pub when: u64,
    pub index: usize,
}

/// The mathematical image of a [`TaskId`]: the position as an unbounded
/// integer.
#[verifier::ext_equal]
pub ghost struct TaskIdModel {
    pub when: u64,
    pub index: int,
}

impl View for TaskId {
    type V = TaskIdModel;

    open spec fn view(&self) -> TaskIdModel {
        TaskIdModel { when: self.when, index: self.index as int }
    }
}

/// A unit of deferred work. `seq` is the engine's global insertion counter:
/// together with `priority` it gives every agenda a total execution order
/// (lower priority value first, earlier insertion first on ties), an order
/// that deferral preserves.
pub struct Task {
    pub name: Option<Vec<u8>>,
    pub call: CallRef,
    pub origin: u64,
    pub priority: u8,
    pub periodic: Option<Period>,
    pub status: TaskStatus,
    pub seq: u64,
}

/// The mathematical image of a [`Task`]: the name as a byte sequence, every
/// other field as it stands.
#[verifier::ext_equal]
pub ghost struct TaskModel {
    pub name: Option<Seq<u8>>,
    pub call: CallRef,
    pub origin: u64,
    pub priority: u8,
    pub periodic: Option<Period>,
    pub status: TaskStatus,
    pub seq: u64,
}

impl View for Task {
    type V = TaskModel;

    open spec fn view(&self) -> TaskModel {
        TaskModel {
            name: match self.name {
                Some(n) => Some(n@),
                None => None,
            },
            call: self.call,
            origin: self.origin,
            priority: self.priority,
            periodic: self.periodic,
            status: self.status,
            seq: self.seq,
        }
    }
}

/// The agenda's execution order: primary key `priority` (lower first),
/// secondary key `seq` (earlier insertion first).
pub open spec fn task_key_lt(a: TaskModel, b: TaskModel) -> bool {
    a.priority < b.priority || (a.priority == b.priority && a.seq < b.seq)
}

/// Executable counterpart of [`task_key_lt`].
pub fn task_before(a: &Task, b: &Task) -> (r: bool)
    ensures
        r == task_key_lt(a@, b@),
{
    a.priority < b.priority || (a.priority == b.priority && a.seq < b.seq)
}

/// One dispatch invocation as the host observes it: which task ran (by its
/// insertion counter), under which origin, whether the call succeeded, and
/// the cost actually charged.
#[derive(Clone, Copy, PartialEq, Eq, Debug)]
pub struct DispatchRecord {
    pub task_seq: u64,
    pub origin: u64,
    pub success: bool,
    pub consumed: Weight,
}

/// What one step execution reports back to the host: the ordered dispatch
/// invocations it made, and the total budget it spent.
pub struct StepReport {
    pub dispatched: Vec<DispatchRecord>,
    pub spent: Weight,
}

} // verus!
