//! The scheduler's mathematical model: the abstract state (agendas, name
//! index, insertion counter), its well-formedness invariant, the meaning of
//! every mutation, and the full per-step execution semantics that
//! [`crate::engine::Scheduler::on_step`] is proved to implement.

use vstd::prelude::*;
use crate::names::{
    lemma_lookup_implies_entry, lemma_lookup_remove_other, lemma_lookup_remove_self,
    lemma_lookup_set_other, lemma_lookup_set_self, lemma_name_lookup_found,
    lemma_name_lookup_push, lemma_name_remove_subset, lemma_unique_lookup_self,
    lemma_unique_remove, lemma_unique_set, name_lookup, name_remove, name_set, names_unique,
    NameEntryModel,
};
use crate::preimages::resolve_ref;
use crate::task::{task_key_lt, Call, DispatchRecord, Period, TaskIdModel, TaskModel, TaskStatus};
use crate::weight::{spec_sat_add64, CostParams, Weight};

verus! {

/// The abstract scheduler state: a map from step number to that step's
/// agenda, the name index, the global insertion counter, the first step that
/// has not yet executed, and the engine's fixed service charges.
#[verifier::ext_equal]
pub ghost struct SchedModel {
    pub agendas: Map<u64, Seq<TaskModel>>,
    pub names: Seq<NameEntryModel>,
    pub next_seq: u64,
    pub horizon: u64,
    pub costs: CostParams,
}

/// What one step execution produces: the state afterwards, the ordered
/// dispatch invocations, and the budget spent.
#[verifier::ext_equal]
pub ghost struct StepOutcome {
    pub m: SchedModel,
    pub dispatched: Seq<DispatchRecord>,
    pub spent: Weight,
}

impl SchedModel {
    /// A fresh engine: nothing scheduled, nothing named, counter at zero.
    pub open spec fn init(costs: CostParams) -> SchedModel {
        SchedModel {
            agendas: Map::empty(),
            names: Seq::empty(),
            next_seq: 0,
            horizon: 0,
            costs,
        }
    }

    /// The agenda for `when`; empty where none has been created.
    pub open spec fn agenda_at(self, when: u64) -> Seq<TaskModel> {
        if self.agendas.contains_key(when) {
            self.agendas[when]
        } else {
            Seq::empty()
        }
    }

    /// The task a location refers to, if the location is occupied.
    pub open spec fn task_at(self, id: TaskIdModel) -> Option<TaskModel> {
        if self.agendas.contains_key(id.when) && 0 <= id.index < self.agendas[id.when].len() {
            Some(self.agendas[id.when][id.index])
        } else {
            None
        }
    }

    /// Soundness of one task: its insertion counter was issued, and a
    /// periodic rule never has a zero interval.
    pub open spec fn wf_task(self, t: TaskModel) -> bool {
        &&& t.seq < self.next_seq
        &&& match t.periodic {
            Some(p) => p.interval >= 1,
            None => true,
        }
    }

    /// Soundness of one index entry: it points at an occupied location whose
    /// task carries exactly this name.
    pub open spec fn wf_entry(self, e: NameEntryModel) -> bool {
        match self.task_at(e.id) {
            Some(t) => t.name == Some(e.name),
            None => false,
        }
    }

    /// The state invariant. Every entry is sound and names are unique; every
    /// named task is indexed at its own location; stored agendas are
    /// nonempty; tasks are sound and no two share an insertion counter.
    pub open spec fn wf(self) -> bool {
        &&& names_unique(self.names)
        &&& forall|i: int|
            0 <= i < self.names.len() ==> self.wf_entry(#[trigger] self.names[i])
        &&& forall|k: u64, i: int|
            #![trigger self.agendas[k][i]]
            self.agendas.contains_key(k) && 0 <= i < self.agendas[k].len() ==> {
                let t = self.agendas[k][i];
                &&& self.wf_task(t)
                &&& match t.name {
                    Some(n) => name_lookup(self.names, n) == Some(
                        TaskIdModel { when: k, index: i },
                    ),
                    None => true,
                }
            }
        &&& forall|k: u64| #[trigger] self.agendas.contains_key(k) ==> self.agendas[k].len() >= 1
        &&& forall|k1: u64, i1: int, k2: u64, i2: int|
            #![trigger self.agendas[k1][i1], self.agendas[k2][i2]]
            self.agendas.contains_key(k1) && 0 <= i1 < self.agendas[k1].len()
                && self.agendas.contains_key(k2) && 0 <= i2 < self.agendas[k2].len() && !(k1 == k2
                && i1 == i2) ==> self.agendas[k1][i1].seq != self.agendas[k2][i2].seq
    }

    /// The location a newly scheduled task gets: appended to the agenda for
    /// `at`.
    pub open spec fn next_slot(self, at: u64) -> TaskIdModel {
        TaskIdModel { when: at, index: self.agenda_at(at).len() as int }
    }

    /// The state after scheduling `t` for step `at`: the task is appended to
    /// that agenda, a named task gets a fresh index entry, and the insertion
    /// counter advances.
    pub open spec fn with_scheduled(self, at: u64, t: TaskModel) -> SchedModel {
        SchedModel {
            agendas: self.agendas.insert(at, self.agenda_at(at).push(t)),
            names: match t.name {
                Some(n) => self.names.push(NameEntryModel { name: n, id: self.next_slot(at) }),
                None => self.names,
            },
            next_seq: (self.next_seq + 1) as u64,
            ..self
        }
    }

    /// The state after `cancel(id)`: the task is marked aborted in place;
    /// nothing else moves, and the name index is untouched.
    pub open spec fn with_cancelled(self, id: TaskIdModel) -> SchedModel {
        let a = self.agendas[id.when];
        let t = a[id.index];
        SchedModel {
            agendas: self.agendas.insert(
                id.when,
                a.update(id.index, TaskModel { status: TaskStatus::Aborted, ..t }),
            ),
            ..self
        }
    }

    /// The state after `cancel_named(n)`: the referenced task is aborted in
    /// place and stripped of its name, and the index entry is removed at
    /// once, so the name is reusable right away.
    pub open spec fn with_cancelled_named(self, n: Seq<u8>) -> SchedModel {
        match name_lookup(self.names, n) {
            Some(id) => {
                let a = self.agendas[id.when];
                let t = a[id.index];
                SchedModel {
                    agendas: self.agendas.insert(
                        id.when,
                        a.update(
                            id.index,
                            TaskModel { name: None, status: TaskStatus::Aborted, ..t },
                        ),
                    ),
                    names: name_remove(self.names, n),
                    ..self
                }
            },
            None => self,
        }
    }

    /// Drop the index entry of `t`, where `t` is named: what purging a task
    /// does to the index.
    pub open spec fn drop_name_of(self, t: TaskModel) -> SchedModel {
        match t.name {
            Some(n) => SchedModel { names: name_remove(self.names, n), ..self },
            None => self,
        }
    }

    /// Append `t` to the agenda for `when` and, where `t` is named, retarget
    /// its index entry to the new location: what deferral and re-arming do.
    pub open spec fn append_task(self, when: u64, t: TaskModel) -> SchedModel {
        let id = self.next_slot(when);
        let m = SchedModel { agendas: self.agendas.insert(when, self.agenda_at(when).push(t)), ..self };
        match t.name {
            Some(n) => SchedModel { names: name_set(m.names, n, id), ..m },
            None => m,
        }
    }
}

/// Whether a periodic task re-enters the agenda after executing: it does
/// unless its repeat count has reached zero.
pub open spec fn rearms(t: TaskModel) -> bool {
    match t.periodic {
        Some(p) => p.remaining != Some(0u64),
        None => false,
    }
}

/// The re-armed copy of `t`: same task, one repeat fewer (where repeats are
/// tracked), still pending.
pub open spec fn rearmed_task(t: TaskModel, p: Period) -> TaskModel {
    TaskModel {
        periodic: Some(
            Period {
                interval: p.interval,
                remaining: match p.remaining {
                    Some(k) => Some((k - 1) as u64),
                    None => None,
                },
            },
        ),
        status: TaskStatus::Pending,
        ..t
    }
}

/// Move every task, in order, to the agenda for `target`: the deferral of an
/// agenda's unprocessed tail.
pub open spec fn defer_tasks(m: SchedModel, tasks: Seq<TaskModel>, target: u64) -> SchedModel
    decreases tasks.len(),
{
    if tasks.len() == 0 {
        m
    } else {
        defer_tasks(m.append_task(target, tasks[0]), tasks.skip(1), target)
    }
}

/// The position of the entry that executes first: smallest key, earliest
/// position on (impossible, but unassumed) key ties.
pub open spec fn min_index(s: Seq<TaskModel>) -> int
    recommends
        s.len() > 0,
    decreases s.len(),
{
    if s.len() <= 1 {
        0
    } else {
        let m = min_index(s.drop_last());
        if task_key_lt(s.last(), s[m]) {
            s.len() - 1
        } else {
            m
        }
    }
}

pub proof fn lemma_min_index_in_range(s: Seq<TaskModel>)
    requires
        s.len() > 0,
    ensures
        0 <= min_index(s) < s.len(),
    decreases s.len(),
{
    if s.len() > 1 {
        lemma_min_index_in_range(s.drop_last());
    }
}

/// The agenda's total execution order: repeatedly take the entry with the
/// smallest (priority, insertion) key.
pub open spec fn sort_tasks(s: Seq<TaskModel>) -> Seq<TaskModel>
    decreases s.len(),
    via sort_tasks_decreases
{
    if s.len() == 0 {
        s
    } else {
        seq![s[min_index(s)]] + sort_tasks(s.remove(min_index(s)))
    }
}

#[via_fn]
proof fn sort_tasks_decreases(s: Seq<TaskModel>) {
    if s.len() > 0 {
        lemma_min_index_in_range(s);
    }
}

/// The first entry to execute has the smallest key.
pub proof fn lemma_min_index_min(s: Seq<TaskModel>)
    requires
        s.len() > 0,
    ensures
        forall|i: int| 0 <= i < s.len() ==> !task_key_lt(#[trigger] s[i], s[min_index(s)]),
    decreases s.len(),
{
    lemma_min_index_in_range(s);
    if s.len() > 1 {
        lemma_min_index_min(s.drop_last());
        lemma_min_index_in_range(s.drop_last());
        assert(forall|i: int| 0 <= i < s.len() - 1 ==> s.drop_last()[i] == #[trigger] s[i]);
    }
}

/// The agenda's execution order is totally ordered: lower priority value
/// first, earlier insertion first among equal priorities. No entry that
/// executes later has a smaller key than one that executes earlier.
pub proof fn lemma_sort_ordered(s: Seq<TaskModel>)
    ensures
        forall|j1: int, j2: int|
            #![trigger sort_tasks(s)[j1], sort_tasks(s)[j2]]
            0 <= j1 < j2 < sort_tasks(s).len() ==> !task_key_lt(
                sort_tasks(s)[j2],
                sort_tasks(s)[j1],
            ),
    decreases s.len(),
{
    if s.len() > 0 {
        lemma_min_index_in_range(s);
        lemma_min_index_min(s);
        let j = min_index(s);
        let rest = s.remove(j);
        lemma_sort_ordered(rest);
        lemma_sort_len(rest);
        let sorted = sort_tasks(s);
        assert(sorted == seq![s[j]] + sort_tasks(rest));
        assert forall|j1: int, j2: int|
            #![trigger sorted[j1], sorted[j2]]
            0 <= j1 < j2 < sorted.len() implies !task_key_lt(sorted[j2], sorted[j1]) by {
            if j1 == 0 {
                assert(sorted[j2] == sort_tasks(rest)[j2 - 1]);
                assert(sort_tasks(rest).contains(sort_tasks(rest)[j2 - 1]));
                lemma_sort_contains(rest, sort_tasks(rest)[j2 - 1]);
                let w = choose|w: int| 0 <= w < rest.len() && rest[w] == sort_tasks(rest)[j2 - 1];
                if w < j {
                    assert(rest[w] == s[w]);
                } else {
                    assert(rest[w] == s[w + 1]);
                }
            } else {
                assert(sorted[j1] == sort_tasks(rest)[j1 - 1]);
                assert(sorted[j2] == sort_tasks(rest)[j2 - 1]);
            }
        }
    }
}

/// Execution order loses no task and invents none.
pub proof fn lemma_sort_contains(s: Seq<TaskModel>, x: TaskModel)
    ensures
        sort_tasks(s).contains(x) <==> s.contains(x),
    decreases s.len(),
{
    if s.len() > 0 {
        let j = min_index(s);
        lemma_min_index_in_range(s);
        let rest = s.remove(j);
        lemma_sort_contains(rest, x);
        if s.contains(x) {
            let w = choose|w: int| 0 <= w < s.len() && s[w] == x;
            if w != j {
                if w < j {
                    assert(rest[w] == x);
                } else {
                    assert(rest[w - 1] == x);
                }
                assert(rest.contains(x));
                assert(sort_tasks(s)[1 + (choose|v: int|
                    0 <= v < sort_tasks(rest).len() && sort_tasks(rest)[v] == x)] == x);
            } else {
                assert(sort_tasks(s)[0] == x);
            }
        }
        if sort_tasks(s).contains(x) {
            let w = choose|w: int| 0 <= w < sort_tasks(s).len() && sort_tasks(s)[w] == x;
            if w == 0 {
                assert(s[j] == x);
            } else {
                assert(sort_tasks(rest)[w - 1] == x);
                assert(sort_tasks(rest).contains(x));
                let v = choose|v: int| 0 <= v < rest.len() && rest[v] == x;
                if v < j {
                    assert(s[v] == x);
                } else {
                    assert(s[v + 1] == x);
                }
            }
        }
    }
}

/// The full step-execution semantics, running down the ordered agenda.
/// Aborted entries are purged at the fixed bookkeeping charge; a hash that
/// does not resolve aborts and purges its task at the fixed lookup charge;
/// the first task whose estimated cost does not fit the remaining budget
/// stops the run and defers the whole unprocessed tail, in order, to the
/// next step; a dispatched task is charged at its actual cost and either
/// re-arms `interval` steps ahead or leaves the store with its index entry.
pub open spec fn run_tasks(
    m: SchedModel,
    tasks: Seq<TaskModel>,
    now: u64,
    budget: Weight,
    spent: Weight,
    disp: Seq<DispatchRecord>,
    pre: Seq<(u64, Call)>,
) -> StepOutcome
    decreases tasks.len(),
{
    if tasks.len() == 0 {
        StepOutcome { m, dispatched: disp, spent }
    } else {
        let t = tasks[0];
        let rest = tasks.skip(1);
        if t.status is Aborted {
            run_tasks(
                m.drop_name_of(t),
                rest,
                now,
                budget,
                spent.spec_add(m.costs.bookkeeping),
                disp,
                pre,
            )
        } else {
            match resolve_ref(pre, t.call) {
                None => run_tasks(
                    m.drop_name_of(t),
                    rest,
                    now,
                    budget,
                    spent.spec_add(m.costs.preimage_lookup),
                    disp,
                    pre,
                ),
                Some(c) => {
                    if !spent.spec_add(c.cost).spec_fits(budget) {
                        StepOutcome {
                            m: defer_tasks(m, tasks, spec_sat_add64(now, 1)),
                            dispatched: disp,
                            spent,
                        }
                    } else {
                        let m2 = match t.periodic {
                            Some(p) => if rearms(t) {
                                m.append_task(spec_sat_add64(now, p.interval), rearmed_task(t, p))
                            } else {
                                m.drop_name_of(t)
                            },
                            None => m.drop_name_of(t),
                        };
                        run_tasks(
                            m2,
                            rest,
                            now,
                            budget,
                            spent.spec_add(c.actual_cost),
                            disp.push(
                                DispatchRecord {
                                    task_seq: t.seq,
                                    origin: t.origin,
                                    success: c.succeeds,
                                    consumed: c.actual_cost,
                                },
                            ),
                            pre,
                        )
                    }
                },
            }
        }
    }
}

/// The store at the start of a step run: the executing agenda taken out, the
/// horizon advanced past `now`.
pub open spec fn step_frame(m: SchedModel, now: u64) -> SchedModel {
    SchedModel { agendas: m.agendas.remove(now), horizon: spec_sat_add64(now, 1), ..m }
}

/// One whole step: take the step's agenda out of the store, advance the
/// horizon, and run the agenda in execution order against a fresh budget.
pub open spec fn step_model(
    m: SchedModel,
    now: u64,
    budget: Weight,
    pre: Seq<(u64, Call)>,
) -> StepOutcome {
    run_tasks(
        step_frame(m, now),
        sort_tasks(m.agenda_at(now)),
        now,
        budget,
        Weight::spec_zero(),
        Seq::empty(),
        pre,
    )
}

/// Whether some in-flight task carries the name.
pub open spec fn flight_covers(tasks: Seq<TaskModel>, n: Seq<u8>) -> bool {
    exists|j: int| 0 <= j < tasks.len() && tasks[j].name == Some(n)
}

/// Soundness of one binding against the store alone.
pub open spec fn binding_sound(m: SchedModel, n: Seq<u8>, id: TaskIdModel) -> bool {
    match m.task_at(id) {
        Some(t) => t.name == Some(n),
        None => false,
    }
}

/// The invariant that holds while a step runs: `m` is the store with the
/// executing agenda taken out, `tasks` the unprocessed tail of that agenda
/// in execution order. Bindings are unique and either sound or claimed by an
/// in-flight task; stored tasks are sound and indexed; in-flight tasks are
/// sound, indexed somewhere, and clash with nothing.
pub open spec fn run_inv(m: SchedModel, tasks: Seq<TaskModel>) -> bool {
    &&& names_unique(m.names)
    &&& forall|n: Seq<u8>|
        #![trigger name_lookup(m.names, n)]
        match name_lookup(m.names, n) {
            Some(id) => binding_sound(m, n, id) || flight_covers(tasks, n),
            None => true,
        }
    &&& forall|k: u64, i: int|
        #![trigger m.agendas[k][i]]
        m.agendas.contains_key(k) && 0 <= i < m.agendas[k].len() ==> {
            let t = m.agendas[k][i];
            &&& m.wf_task(t)
            &&& match t.name {
                Some(n) => name_lookup(m.names, n) == Some(TaskIdModel { when: k, index: i }),
                None => true,
            }
        }
    &&& forall|k: u64| #[trigger] m.agendas.contains_key(k) ==> m.agendas[k].len() >= 1
    &&& forall|k1: u64, i1: int, k2: u64, i2: int|
        #![trigger m.agendas[k1][i1], m.agendas[k2][i2]]
        m.agendas.contains_key(k1) && 0 <= i1 < m.agendas[k1].len() && m.agendas.contains_key(k2)
            && 0 <= i2 < m.agendas[k2].len() && !(k1 == k2 && i1 == i2)
            ==> m.agendas[k1][i1].seq != m.agendas[k2][i2].seq
    &&& forall|j: int| 0 <= j < tasks.len() ==> m.wf_task(#[trigger] tasks[j])
    &&& forall|j: int|
        0 <= j < tasks.len() ==> match (#[trigger] tasks[j]).name {
            Some(n) => name_lookup(m.names, n) is Some,
            None => true,
        }
    &&& forall|j1: int, j2: int|
        #![trigger tasks[j1], tasks[j2]]
        0 <= j1 < j2 < tasks.len() ==> tasks[j1].seq != tasks[j2].seq && (tasks[j1].name is Some
            ==> tasks[j1].name != tasks[j2].name)
    &&& forall|j: int, k: u64, i: int|
        #![trigger tasks[j], m.agendas[k][i]]
        0 <= j < tasks.len() && m.agendas.contains_key(k) && 0 <= i < m.agendas[k].len()
            ==> tasks[j].seq != m.agendas[k][i].seq && (tasks[j].name is Some ==> tasks[j].name
            != m.agendas[k][i].name)
}

/// With nothing left in flight, the run invariant is the state invariant.
pub proof fn lemma_run_inv_wf(m: SchedModel)
    requires
        run_inv(m, Seq::empty()),
    ensures
        m.wf(),
{
    lemma_unique_lookup_self(m.names);
    assert forall|i: int| 0 <= i < m.names.len() implies m.wf_entry(#[trigger] m.names[i]) by {
        assert(name_lookup(m.names, m.names[i].name) == Some(m.names[i].id));
    }
}

pub proof fn lemma_sort_len(s: Seq<TaskModel>)
    ensures
        sort_tasks(s).len() == s.len(),
    decreases s.len(),
{
    if s.len() > 0 {
        lemma_min_index_in_range(s);
        lemma_sort_len(s.remove(min_index(s)));
    }
}

/// Execution order keeps distinct occurrences distinct.
pub proof fn lemma_sort_distinct(s: Seq<TaskModel>)
    requires
        forall|i1: int, i2: int| #![trigger s[i1], s[i2]] 0 <= i1 < i2 < s.len() ==> s[i1] != s[i2],
    ensures
        forall|j1: int, j2: int|
            #![trigger sort_tasks(s)[j1], sort_tasks(s)[j2]]
            0 <= j1 < j2 < sort_tasks(s).len() ==> sort_tasks(s)[j1] != sort_tasks(s)[j2],
    decreases s.len(),
{
    if s.len() > 0 {
        lemma_min_index_in_range(s);
        let j = min_index(s);
        let rest = s.remove(j);
        assert forall|i1: int, i2: int| #![trigger rest[i1], rest[i2]] 0 <= i1 < i2 < rest.len() implies rest[i1] != rest[i2] by {
            if i2 < j {
                assert(rest[i1] == s[i1] && rest[i2] == s[i2]);
            } else if i1 < j {
                assert(rest[i1] == s[i1] && rest[i2] == s[i2 + 1]);
            } else {
                assert(rest[i1] == s[i1 + 1] && rest[i2] == s[i2 + 1]);
            }
        }
        lemma_sort_distinct(rest);
        assert forall|w: int| 0 <= w < rest.len() implies #[trigger] rest[w] != s[j] by {
            if w < j {
                assert(rest[w] == s[w]);
            } else {
                assert(rest[w] == s[w + 1]);
            }
        }
        let sorted = sort_tasks(s);
        assert(sorted == seq![s[j]] + sort_tasks(rest));
        lemma_sort_len(rest);
        assert forall|j1: int, j2: int| #![trigger sorted[j1], sorted[j2]] 0 <= j1 < j2 < sorted.len() implies sorted[j1] != sorted[j2] by {
            if j1 == 0 {
                assert(sorted[j2] == sort_tasks(rest)[j2 - 1]);
                assert(sort_tasks(rest).contains(sort_tasks(rest)[j2 - 1]));
                lemma_sort_contains(rest, sort_tasks(rest)[j2 - 1]);
                let w = choose|w: int| 0 <= w < rest.len() && rest[w] == sort_tasks(rest)[j2 - 1];
                assert(rest[w] != s[j]);
            } else {
                assert(sorted[j1] == sort_tasks(rest)[j1 - 1]);
                assert(sorted[j2] == sort_tasks(rest)[j2 - 1]);
            }
        }
    }
}

/// At the start of a step the run invariant holds of the frame and the
/// ordered agenda.
pub proof fn lemma_step_inv(m: SchedModel, now: u64)
    requires
        m.wf(),
    ensures
        run_inv(step_frame(m, now), sort_tasks(m.agenda_at(now))),
{
    let a = m.agenda_at(now);
    let ts = sort_tasks(a);
    let f = step_frame(m, now);
    lemma_sort_len(a);
    assert forall|i1: int, i2: int| #![trigger a[i1], a[i2]] 0 <= i1 < i2 < a.len() implies a[i1] != a[i2] by {
        assert(m.agendas[now][i1].seq != m.agendas[now][i2].seq);
    }
    lemma_sort_distinct(a);
    assert forall|j: int| 0 <= j < ts.len() implies a.contains(#[trigger] ts[j]) by {
        assert(ts.contains(ts[j]));
        lemma_sort_contains(a, ts[j]);
    }
    // in-flight soundness, and every in-flight name is bound
    assert forall|j: int| 0 <= j < ts.len() implies f.wf_task(#[trigger] ts[j]) && match ts[j].name {
        Some(n) => name_lookup(f.names, n) is Some,
        None => true,
    } by {
        let w = choose|w: int| 0 <= w < a.len() && a[w] == ts[j];
        assert(m.agendas[now][w] == ts[j]);
        assert(m.wf_task(ts[j]));
    }
    // in-flight tasks clash with nothing in flight
    assert forall|j1: int, j2: int|
        #![trigger ts[j1], ts[j2]]
        0 <= j1 < j2 < ts.len() implies ts[j1].seq != ts[j2].seq && (ts[j1].name is Some
        ==> ts[j1].name != ts[j2].name) by {
        let w1 = choose|w: int| 0 <= w < a.len() && a[w] == ts[j1];
        let w2 = choose|w: int| 0 <= w < a.len() && a[w] == ts[j2];
        assert(a[w1] != a[w2]);
        assert(m.agendas[now][w1].seq != m.agendas[now][w2].seq);
        if ts[j1].name is Some && ts[j1].name == ts[j2].name {
            let n = ts[j1].name->Some_0;
            assert(name_lookup(m.names, n) == Some(TaskIdModel { when: now, index: w1 }));
            assert(name_lookup(m.names, n) == Some(TaskIdModel { when: now, index: w2 }));
        }
    }
    // nor with anything still stored
    assert forall|j: int, k: u64, i: int|
        #![trigger ts[j], f.agendas[k][i]]
        0 <= j < ts.len() && f.agendas.contains_key(k) && 0 <= i < f.agendas[k].len() implies ts[j].seq
        != f.agendas[k][i].seq && (ts[j].name is Some ==> ts[j].name != f.agendas[k][i].name) by {
        let w = choose|w: int| 0 <= w < a.len() && a[w] == ts[j];
        assert(k != now);
        assert(f.agendas[k] == m.agendas[k]);
        assert(m.agendas[now][w].seq != m.agendas[k][i].seq);
        if ts[j].name is Some && ts[j].name == m.agendas[k][i].name {
            let n = ts[j].name->Some_0;
            assert(name_lookup(m.names, n) == Some(TaskIdModel { when: now, index: w }));
            assert(name_lookup(m.names, n) == Some(TaskIdModel { when: k, index: i }));
        }
    }
    // stored side of the frame
    assert forall|k: u64, i: int|
        #![trigger f.agendas[k][i]]
        f.agendas.contains_key(k) && 0 <= i < f.agendas[k].len() implies {
        let t = f.agendas[k][i];
        &&& f.wf_task(t)
        &&& match t.name {
            Some(n) => name_lookup(f.names, n) == Some(TaskIdModel { when: k, index: i }),
            None => true,
        }
    } by {
        assert(k != now);
        assert(f.agendas[k] == m.agendas[k]);
        assert(m.agendas.contains_key(k) && 0 <= i < m.agendas[k].len());
        assert(m.agendas[k][i] == f.agendas[k][i]);
    }
    assert forall|k: u64| #[trigger] f.agendas.contains_key(k) implies f.agendas[k].len() >= 1 by {
        assert(f.agendas[k] == m.agendas[k]);
    }
    assert forall|k1: u64, i1: int, k2: u64, i2: int|
        #![trigger f.agendas[k1][i1], f.agendas[k2][i2]]
        f.agendas.contains_key(k1) && 0 <= i1 < f.agendas[k1].len() && f.agendas.contains_key(k2)
            && 0 <= i2 < f.agendas[k2].len() && !(k1 == k2 && i1 == i2) implies f.agendas[k1][i1].seq
        != f.agendas[k2][i2].seq by {
        assert(f.agendas[k1] == m.agendas[k1]);
        assert(f.agendas[k2] == m.agendas[k2]);
        assert(m.agendas[k1][i1].seq != m.agendas[k2][i2].seq);
    }
    // every binding is sound in the frame or claimed by the flight
    assert forall|n: Seq<u8>|
        #![trigger name_lookup(f.names, n)]
        match name_lookup(f.names, n) {
            Some(id) => binding_sound(f, n, id) || flight_covers(ts, n),
            None => true,
        } by {
        if name_lookup(f.names, n) is Some {
            let id = name_lookup(f.names, n)->Some_0;
            lemma_lookup_implies_entry(m.names, n, id);
            let i = choose|i: int| 0 <= i < m.names.len() && m.names[i].name == n && m.names[i].id
                == id;
            assert(m.wf_entry(m.names[i]));
            let t = m.task_at(id)->Some_0;
            assert(m.agendas[id.when][id.index] == t);
            if id.when == now {
                assert(a.contains(t)) by {
                    assert(a[id.index] == t);
                }
                lemma_sort_contains(a, t);
                let j = choose|j: int| 0 <= j < ts.len() && ts[j] == t;
                assert(ts[j].name == Some(n));
            } else {
                assert(f.agendas[id.when] == m.agendas[id.when]);
                assert(f.task_at(id) == Some(t));
            }
        }
    }
}

/// Purging the head of the flight keeps the run invariant.
pub proof fn lemma_run_inv_drop(m: SchedModel, tasks: Seq<TaskModel>)
    requires
        run_inv(m, tasks),
        tasks.len() > 0,
    ensures
        run_inv(m.drop_name_of(tasks[0]), tasks.skip(1)),
{
    let t = tasks[0];
    let rest = tasks.skip(1);
    let r = m.drop_name_of(t);
    assert(forall|j: int| 0 <= j < rest.len() ==> #[trigger] rest[j] == tasks[j + 1]);
    match t.name {
        None => {
            assert forall|n: Seq<u8>|
                #![trigger name_lookup(r.names, n)]
                match name_lookup(r.names, n) {
                    Some(id) => binding_sound(r, n, id) || flight_covers(rest, n),
                    None => true,
                } by {
                if name_lookup(m.names, n) is Some && !binding_sound(
                    m,
                    n,
                    name_lookup(m.names, n)->Some_0,
                ) {
                    let j = choose|j: int| 0 <= j < tasks.len() && tasks[j].name == Some(n);
                    assert(rest[j - 1].name == Some(n));
                }
            }
        },
        Some(n0) => {
            lemma_unique_remove(m.names, n0);
            assert forall|n: Seq<u8>|
                #![trigger name_lookup(r.names, n)]
                match name_lookup(r.names, n) {
                    Some(id) => binding_sound(r, n, id) || flight_covers(rest, n),
                    None => true,
                } by {
                if n == n0 {
                    lemma_lookup_remove_self(m.names, n0);
                } else {
                    lemma_lookup_remove_other(m.names, n0, n);
                    if name_lookup(m.names, n) is Some && !binding_sound(
                        m,
                        n,
                        name_lookup(m.names, n)->Some_0,
                    ) {
                        let j = choose|j: int| 0 <= j < tasks.len() && tasks[j].name == Some(n);
                        assert(rest[j - 1].name == Some(n));
                    }
                }
            }
            assert forall|k: u64, i: int|
                #![trigger r.agendas[k][i]]
                r.agendas.contains_key(k) && 0 <= i < r.agendas[k].len() implies {
                let tt = r.agendas[k][i];
                &&& r.wf_task(tt)
                &&& match tt.name {
                    Some(n) => name_lookup(r.names, n) == Some(TaskIdModel { when: k, index: i }),
                    None => true,
                }
            } by {
                assert(m.agendas[k][i] == r.agendas[k][i]);
                match r.agendas[k][i].name {
                    Some(n) => {
                        assert(n != n0);
                        lemma_lookup_remove_other(m.names, n0, n);
                    },
                    None => {},
                }
            }
            assert forall|j: int| 0 <= j < rest.len() implies match (#[trigger] rest[j]).name {
                Some(n) => name_lookup(r.names, n) is Some,
                None => true,
            } by {
                match rest[j].name {
                    Some(n) => {
                        assert(tasks[j + 1].name == Some(n));
                        assert(n != n0);
                        lemma_lookup_remove_other(m.names, n0, n);
                    },
                    None => {},
                }
            }
        },
    }
}

/// Appending a task that stands for the head of the flight (the head itself
/// on deferral, its re-armed copy after a dispatch) keeps the run invariant.
pub proof fn lemma_run_inv_append(m: SchedModel, tasks: Seq<TaskModel>, target: u64, t2: TaskModel)
    requires
        run_inv(m, tasks),
        tasks.len() > 0,
        t2.name == tasks[0].name,
        t2.seq == tasks[0].seq,
        m.wf_task(t2),
    ensures
        run_inv(m.append_task(target, t2), tasks.skip(1)),
{
    let rest = tasks.skip(1);
    let r = m.append_task(target, t2);
    let a = m.agenda_at(target);
    let newid = m.next_slot(target);
    assert(forall|j: int| 0 <= j < rest.len() ==> #[trigger] rest[j] == tasks[j + 1]);
    assert(r.agendas == m.agendas.insert(target, a.push(t2)));
    assert(r.agendas[target] == a.push(t2));
    assert(r.agendas[target][a.len() as int] == t2);
    assert(forall|i: int| 0 <= i < a.len() ==> r.agendas[target][i] == #[trigger] a[i]);
    assert(forall|k: u64|
        k != target && m.agendas.contains_key(k) ==> #[trigger] r.agendas[k] == m.agendas[k]);
    // a stored slot of the result is an old slot or the new task
    assert forall|k: u64, i: int|
        #![trigger r.agendas[k][i]]
        r.agendas.contains_key(k) && 0 <= i < r.agendas[k].len() implies (k == target && i
        == a.len() && r.agendas[k][i] == t2) || (m.agendas.contains_key(k) && 0 <= i
        < m.agendas[k].len() && r.agendas[k][i] == m.agendas[k][i]) by {
        if k == target {
            if i < a.len() {
                assert(m.agendas.contains_key(target) ==> a == m.agendas[target]);
            }
        }
    }
    match t2.name {
        Some(n0) => {
            assert(name_lookup(m.names, n0) is Some) by {
                assert(tasks[0].name == Some(n0));
            }
            lemma_unique_set(m.names, n0, newid);
            lemma_lookup_set_self(m.names, n0, newid);
            assert(name_lookup(r.names, n0) == Some(newid));
            assert(binding_sound(r, n0, newid)) by {
                assert(r.agendas[target][a.len() as int] == t2);
            }
            assert forall|n: Seq<u8>|
                #![trigger name_lookup(r.names, n)]
                match name_lookup(r.names, n) {
                    Some(id) => binding_sound(r, n, id) || flight_covers(rest, n),
                    None => true,
                } by {
                if n != n0 {
                    lemma_lookup_set_other(m.names, n0, newid, n);
                    if name_lookup(m.names, n) is Some {
                        let id = name_lookup(m.names, n)->Some_0;
                        if binding_sound(m, n, id) {
                            assert(m.agendas[id.when][id.index] == m.task_at(id)->Some_0);
                            if id.when == target {
                                assert(a == m.agendas[target]);
                                assert(r.agendas[target][id.index] == a[id.index]);
                            }
                            assert(binding_sound(r, n, id));
                        } else {
                            let j = choose|j: int| 0 <= j < tasks.len() && tasks[j].name == Some(
                                n,
                            );
                            assert(rest[j - 1].name == Some(n));
                        }
                    }
                }
            }
            assert forall|k: u64, i: int|
                #![trigger r.agendas[k][i]]
                r.agendas.contains_key(k) && 0 <= i < r.agendas[k].len() implies {
                let tt = r.agendas[k][i];
                &&& r.wf_task(tt)
                &&& match tt.name {
                    Some(n) => name_lookup(r.names, n) == Some(TaskIdModel { when: k, index: i }),
                    None => true,
                }
            } by {
                if k == target && i == a.len() {
                    assert(newid == TaskIdModel { when: k, index: i });
                } else {
                    assert(r.agendas[k][i] == m.agendas[k][i]);
                    match m.agendas[k][i].name {
                        Some(n) => {
                            assert(n != n0) by {
                                assert(tasks[0].name is Some);
                            }
                            lemma_lookup_set_other(m.names, n0, newid, n);
                        },
                        None => {},
                    }
                }
            }
            assert forall|j: int| 0 <= j < rest.len() implies match (#[trigger] rest[j]).name {
                Some(n) => name_lookup(r.names, n) is Some,
                None => true,
            } by {
                match rest[j].name {
                    Some(n) => {
                        assert(tasks[j + 1].name == Some(n));
                        if n == n0 {
                        } else {
                            lemma_lookup_set_other(m.names, n0, newid, n);
                        }
                    },
                    None => {},
                }
            }
        },
        None => {
            assert forall|n: Seq<u8>|
                #![trigger name_lookup(r.names, n)]
                match name_lookup(r.names, n) {
                    Some(id) => binding_sound(r, n, id) || flight_covers(rest, n),
                    None => true,
                } by {
                if name_lookup(m.names, n) is Some {
                    let id = name_lookup(m.names, n)->Some_0;
                    if binding_sound(m, n, id) {
                        assert(m.agendas[id.when][id.index] == m.task_at(id)->Some_0);
                        if id.when == target {
                            assert(a == m.agendas[target]);
                            assert(r.agendas[target][id.index] == a[id.index]);
                        }
                        assert(binding_sound(r, n, id));
                    } else {
                        let j = choose|j: int| 0 <= j < tasks.len() && tasks[j].name == Some(n);
                        assert(tasks[j].name is Some);
                        assert(j != 0);
                        assert(rest[j - 1].name == Some(n));
                    }
                }
            }
            assert forall|k: u64, i: int|
                #![trigger r.agendas[k][i]]
                r.agendas.contains_key(k) && 0 <= i < r.agendas[k].len() implies {
                let tt = r.agendas[k][i];
                &&& r.wf_task(tt)
                &&& match tt.name {
                    Some(n) => name_lookup(r.names, n) == Some(TaskIdModel { when: k, index: i }),
                    None => true,
                }
            } by {
                if k == target && i == a.len() {
                } else {
                    assert(r.agendas[k][i] == m.agendas[k][i]);
                }
            }
        },
    }
    // seq and name clashes, and nonemptiness, for both shapes of the index
    assert forall|k1: u64, i1: int, k2: u64, i2: int|
        #![trigger r.agendas[k1][i1], r.agendas[k2][i2]]
        r.agendas.contains_key(k1) && 0 <= i1 < r.agendas[k1].len() && r.agendas.contains_key(k2)
            && 0 <= i2 < r.agendas[k2].len() && !(k1 == k2 && i1 == i2) implies r.agendas[k1][i1].seq
        != r.agendas[k2][i2].seq by {
        let new1 = k1 == target && i1 == a.len();
        let new2 = k2 == target && i2 == a.len();
        if new1 && !new2 {
            assert(tasks[0].seq != m.agendas[k2][i2].seq);
        } else if !new1 && new2 {
            assert(tasks[0].seq != m.agendas[k1][i1].seq);
        } else if !new1 && !new2 {
            assert(m.agendas[k1][i1].seq != m.agendas[k2][i2].seq);
        }
    }
    assert forall|k: u64| #[trigger] r.agendas.contains_key(k) implies r.agendas[k].len() >= 1 by {
        if k != target {
            assert(r.agendas[k] == m.agendas[k]);
        }
    }
    assert forall|j: int, k: u64, i: int|
        #![trigger rest[j], r.agendas[k][i]]
        0 <= j < rest.len() && r.agendas.contains_key(k) && 0 <= i < r.agendas[k].len() implies rest[j].seq
        != r.agendas[k][i].seq && (rest[j].name is Some ==> rest[j].name != r.agendas[k][i].name) by {
        assert(rest[j] == tasks[j + 1]);
        if k == target && i == a.len() {
            assert(tasks[0].seq != tasks[j + 1].seq);
            if rest[j].name is Some && rest[j].name == t2.name {
                assert(tasks[0].name is Some);
                assert(tasks[0].name != tasks[j + 1].name);
            }
        } else {
            assert(r.agendas[k][i] == m.agendas[k][i]);
            assert(tasks[j + 1].seq != m.agendas[k][i].seq);
        }
    }
}

/// Deferring the whole remaining flight to one step keeps the run invariant,
/// emptied.
pub proof fn lemma_defer_inv(m: SchedModel, tasks: Seq<TaskModel>, target: u64)
    requires
        run_inv(m, tasks),
    ensures
        run_inv(defer_tasks(m, tasks, target), Seq::empty()),
    decreases tasks.len(),
{
    if tasks.len() == 0 {
        assert(tasks =~= Seq::<TaskModel>::empty());
    } else {
        lemma_run_inv_append(m, tasks, target, tasks[0]);
        lemma_defer_inv(m.append_task(target, tasks[0]), tasks.skip(1), target);
    }
}

/// Running a flight from a state satisfying the run invariant ends in a
/// well-formed state.
pub proof fn lemma_run_wf(
    m: SchedModel,
    tasks: Seq<TaskModel>,
    now: u64,
    budget: Weight,
    spent: Weight,
    disp: Seq<DispatchRecord>,
    pre: Seq<(u64, Call)>,
)
    requires
        run_inv(m, tasks),
    ensures
        run_tasks(m, tasks, now, budget, spent, disp, pre).m.wf(),
    decreases tasks.len(),
{
    if tasks.len() == 0 {
        lemma_run_inv_wf(m);
    } else {
        let t = tasks[0];
        let rest = tasks.skip(1);
        if t.status is Aborted {
            lemma_run_inv_drop(m, tasks);
            lemma_run_wf(
                m.drop_name_of(t),
                rest,
                now,
                budget,
                spent.spec_add(m.costs.bookkeeping),
                disp,
                pre,
            );
        } else {
            match resolve_ref(pre, t.call) {
                None => {
                    lemma_run_inv_drop(m, tasks);
                    lemma_run_wf(
                        m.drop_name_of(t),
                        rest,
                        now,
                        budget,
                        spent.spec_add(m.costs.preimage_lookup),
                        disp,
                        pre,
                    );
                },
                Some(c) => {
                    if !spent.spec_add(c.cost).spec_fits(budget) {
                        lemma_defer_inv(m, tasks, spec_sat_add64(now, 1));
                        lemma_run_inv_wf(defer_tasks(m, tasks, spec_sat_add64(now, 1)));
                    } else {
                        let spent2 = spent.spec_add(c.actual_cost);
                        let disp2 = disp.push(
                            DispatchRecord {
                                task_seq: t.seq,
                                origin: t.origin,
                                success: c.succeeds,
                                consumed: c.actual_cost,
                            },
                        );
                        match t.periodic {
                            Some(p) => {
                                if rearms(t) {
                                    let t2 = rearmed_task(t, p);
                                    assert(m.wf_task(t2));
                                    lemma_run_inv_append(
                                        m,
                                        tasks,
                                        spec_sat_add64(now, p.interval),
                                        t2,
                                    );
                                    lemma_run_wf(
                                        m.append_task(spec_sat_add64(now, p.interval), t2),
                                        rest,
                                        now,
                                        budget,
                                        spent2,
                                        disp2,
                                        pre,
                                    );
                                } else {
                                    lemma_run_inv_drop(m, tasks);
                                    lemma_run_wf(
                                        m.drop_name_of(t),
                                        rest,
                                        now,
                                        budget,
                                        spent2,
                                        disp2,
                                        pre,
                                    );
                                }
                            },
                            None => {
                                lemma_run_inv_drop(m, tasks);
                                lemma_run_wf(m.drop_name_of(t), rest, now, budget, spent2, disp2, pre);
                            },
                        }
                    }
                },
            }
        }
    }
}

/// A step keeps the state invariant.
pub proof fn lemma_step_wf(m: SchedModel, now: u64, budget: Weight, pre: Seq<(u64, Call)>)
    requires
        m.wf(),
    ensures
        step_model(m, now, budget, pre).m.wf(),
{
    lemma_step_inv(m, now);
    lemma_run_wf(
        step_frame(m, now),
        sort_tasks(m.agenda_at(now)),
        now,
        budget,
        Weight::spec_zero(),
        Seq::empty(),
        pre,
    );
}

/// A bound name refers to an occupied location holding a task of that name.
pub proof fn lemma_lookup_valid(m: SchedModel, n: Seq<u8>, id: TaskIdModel)
    requires
        m.wf(),
        name_lookup(m.names, n) == Some(id),
    ensures
        m.task_at(id) is Some,
        m.task_at(id)->Some_0.name == Some(n),
{
    lemma_lookup_implies_entry(m.names, n, id);
    let i = choose|i: int| 0 <= i < m.names.len() && m.names[i].name == n && m.names[i].id == id;
    assert(m.wf_entry(m.names[i]));
}

/// Scheduling a sound, freshly numbered task (with an unused name, where
/// named) keeps the state invariant.
pub proof fn lemma_wf_schedule(m: SchedModel, at: u64, t: TaskModel)
    requires
        m.wf(),
        t.seq == m.next_seq,
        m.next_seq < u64::MAX,
        match t.periodic {
            Some(p) => p.interval >= 1,
            None => true,
        },
        match t.name {
            Some(n) => name_lookup(m.names, n) is None,
            None => true,
        },
    ensures
        m.with_scheduled(at, t).wf(),
{
    let r = m.with_scheduled(at, t);
    let a = m.agenda_at(at);
    let newid = m.next_slot(at);
    assert(r.agendas[at] == a.push(t));
    assert(r.agendas[at][a.len() as int] == t);
    assert(forall|i: int| 0 <= i < a.len() ==> r.agendas[at][i] == #[trigger] a[i]);
    assert(forall|k: u64|
        k != at && m.agendas.contains_key(k) ==> #[trigger] r.agendas[k] == m.agendas[k]);
    assert forall|k: u64, i: int|
        #![trigger r.agendas[k][i]]
        r.agendas.contains_key(k) && 0 <= i < r.agendas[k].len() implies (k == at && i == a.len()
        && r.agendas[k][i] == t) || (m.agendas.contains_key(k) && 0 <= i < m.agendas[k].len()
        && r.agendas[k][i] == m.agendas[k][i]) by {
        if k == at && i < a.len() {
            assert(m.agendas.contains_key(at) ==> a == m.agendas[at]);
        }
    }
    match t.name {
        Some(n0) => {
            let e = NameEntryModel { name: n0, id: newid };
            lemma_name_lookup_found(m.names, n0);
            assert(forall|k: int| 0 <= k < m.names.len() ==> (#[trigger] m.names[k]).name != n0);
            assert(r.names == m.names.push(e));
            assert(forall|i: int| 0 <= i < m.names.len() ==> #[trigger] r.names[i] == m.names[i]);
            assert(r.names[m.names.len() as int] == e);
            assert forall|i: int, j: int|
                #![trigger r.names[i], r.names[j]]
                0 <= i < j < r.names.len() implies r.names[i].name != r.names[j].name by {}
            assert forall|i: int| 0 <= i < r.names.len() implies r.wf_entry(
                #[trigger] r.names[i],
            ) by {
                if i < m.names.len() {
                    assert(m.wf_entry(m.names[i]));
                    let id = m.names[i].id;
                    assert(m.agendas[id.when][id.index] == m.task_at(id)->Some_0);
                    if id.when == at {
                        assert(a == m.agendas[at]);
                        assert(r.agendas[at][id.index] == a[id.index]);
                    }
                } else {
                    assert(r.names[i] == e);
                    assert(r.task_at(newid) == Some(t));
                }
            }
            assert forall|k: u64, i: int|
                #![trigger r.agendas[k][i]]
                r.agendas.contains_key(k) && 0 <= i < r.agendas[k].len() implies match r.agendas[k][i].name {
                Some(n) => name_lookup(r.names, n) == Some(TaskIdModel { when: k, index: i }),
                None => true,
            } by {
                if k == at && i == a.len() {
                    lemma_name_lookup_push(m.names, e, n0);
                } else {
                    match m.agendas[k][i].name {
                        Some(n) => {
                            lemma_name_lookup_push(m.names, e, n);
                        },
                        None => {},
                    }
                }
            }
        },
        None => {
            assert forall|k: u64, i: int|
                #![trigger r.agendas[k][i]]
                r.agendas.contains_key(k) && 0 <= i < r.agendas[k].len() implies match r.agendas[k][i].name {
                Some(n) => name_lookup(r.names, n) == Some(TaskIdModel { when: k, index: i }),
                None => true,
            } by {}
            assert forall|i: int| 0 <= i < r.names.len() implies r.wf_entry(
                #[trigger] r.names[i],
            ) by {
                assert(m.wf_entry(m.names[i]));
                let id = m.names[i].id;
                assert(m.agendas[id.when][id.index] == m.task_at(id)->Some_0);
                if id.when == at {
                    assert(a == m.agendas[at]);
                    assert(r.agendas[at][id.index] == a[id.index]);
                }
            }
        },
    }
    assert forall|k: u64| #[trigger] r.agendas.contains_key(k) implies r.agendas[k].len() >= 1 by {
        if k != at {
            assert(r.agendas[k] == m.agendas[k]);
        }
    }
    assert forall|k1: u64, i1: int, k2: u64, i2: int|
        #![trigger r.agendas[k1][i1], r.agendas[k2][i2]]
        r.agendas.contains_key(k1) && 0 <= i1 < r.agendas[k1].len() && r.agendas.contains_key(k2)
            && 0 <= i2 < r.agendas[k2].len() && !(k1 == k2 && i1 == i2) implies r.agendas[k1][i1].seq
        != r.agendas[k2][i2].seq by {
        let new1 = k1 == at && i1 == a.len();
        let new2 = k2 == at && i2 == a.len();
        if new1 && !new2 {
            assert(m.wf_task(m.agendas[k2][i2]));
        } else if !new1 && new2 {
            assert(m.wf_task(m.agendas[k1][i1]));
        } else if !new1 && !new2 {
            assert(m.agendas[k1][i1].seq != m.agendas[k2][i2].seq);
        }
    }
}

/// Aborting a task in place keeps the state invariant.
pub proof fn lemma_wf_cancel(m: SchedModel, id: TaskIdModel)
    requires
        m.wf(),
        m.task_at(id) is Some,
    ensures
        m.with_cancelled(id).wf(),
{
    let r = m.with_cancelled(id);
    let a = m.agendas[id.when];
    let told = a[id.index];
    assert(r.agendas[id.when] == a.update(id.index, TaskModel { status: TaskStatus::Aborted, ..told }));
    assert forall|k: u64, i: int|
        #![trigger r.agendas[k][i]]
        r.agendas.contains_key(k) && 0 <= i < r.agendas[k].len() implies m.agendas.contains_key(k)
        && 0 <= i < m.agendas[k].len() && r.agendas[k][i].name == m.agendas[k][i].name
        && r.agendas[k][i].seq == m.agendas[k][i].seq && r.agendas[k][i].periodic
        == m.agendas[k][i].periodic by {
        if k != id.when {
            assert(r.agendas[k] == m.agendas[k]);
        }
    }
    assert forall|i: int| 0 <= i < r.names.len() implies r.wf_entry(#[trigger] r.names[i]) by {
        assert(m.wf_entry(m.names[i]));
        let eid = m.names[i].id;
        assert(m.agendas[eid.when][eid.index] == m.task_at(eid)->Some_0);
        assert(r.agendas[eid.when][eid.index].name == m.agendas[eid.when][eid.index].name);
    }
    assert forall|k: u64| #[trigger] r.agendas.contains_key(k) implies r.agendas[k].len() >= 1 by {
        if k != id.when {
            assert(r.agendas[k] == m.agendas[k]);
        }
    }
    assert forall|k: u64, i: int|
        #![trigger r.agendas[k][i]]
        r.agendas.contains_key(k) && 0 <= i < r.agendas[k].len() implies {
        let t = r.agendas[k][i];
        &&& r.wf_task(t)
        &&& match t.name {
            Some(n) => name_lookup(r.names, n) == Some(TaskIdModel { when: k, index: i }),
            None => true,
        }
    } by {
        assert(m.wf_task(m.agendas[k][i]));
        assert(r.agendas[k][i].name == m.agendas[k][i].name);
    }
    assert forall|k1: u64, i1: int, k2: u64, i2: int|
        #![trigger r.agendas[k1][i1], r.agendas[k2][i2]]
        r.agendas.contains_key(k1) && 0 <= i1 < r.agendas[k1].len() && r.agendas.contains_key(k2)
            && 0 <= i2 < r.agendas[k2].len() && !(k1 == k2 && i1 == i2) implies r.agendas[k1][i1].seq
        != r.agendas[k2][i2].seq by {
        assert(m.agendas[k1][i1].seq != m.agendas[k2][i2].seq);
    }
}

/// Cancelling through the index (abort, strip the name, unbind it at once)
/// keeps the state invariant.
pub proof fn lemma_wf_cancel_named(m: SchedModel, n: Seq<u8>)
    requires
        m.wf(),
        name_lookup(m.names, n) is Some,
    ensures
        m.with_cancelled_named(n).wf(),
{
    let id = name_lookup(m.names, n)->Some_0;
    lemma_lookup_valid(m, n, id);
    let r = m.with_cancelled_named(n);
    let a = m.agendas[id.when];
    let told = a[id.index];
    let tnew = TaskModel { name: None, status: TaskStatus::Aborted, ..told };
    assert(told.name == Some(n));
    assert(r.agendas[id.when] == a.update(id.index, tnew));
    assert(r.names == name_remove(m.names, n));
    lemma_unique_remove(m.names, n);
    lemma_name_remove_subset(m.names, n);
    lemma_lookup_remove_self(m.names, n);
    lemma_name_lookup_found(r.names, n);
    assert(forall|k: int| 0 <= k < r.names.len() ==> (#[trigger] r.names[k]).name != n);
    // slots: unchanged except the cancelled one, which loses name and status
    assert forall|k: u64, i: int|
        #![trigger r.agendas[k][i]]
        r.agendas.contains_key(k) && 0 <= i < r.agendas[k].len() implies m.agendas.contains_key(k)
        && 0 <= i < m.agendas[k].len() && ((k == id.when && i == id.index && r.agendas[k][i]
        == tnew) || r.agendas[k][i] == m.agendas[k][i]) by {
        if k != id.when {
            assert(r.agendas[k] == m.agendas[k]);
        }
    }
    assert forall|i: int| 0 <= i < r.names.len() implies r.wf_entry(#[trigger] r.names[i]) by {
        let e = r.names[i];
        assert(m.names.contains(e));
        let i0 = choose|i0: int| 0 <= i0 < m.names.len() && m.names[i0] == e;
        assert(m.wf_entry(m.names[i0]));
        assert(m.agendas[e.id.when][e.id.index] == m.task_at(e.id)->Some_0);
        assert(e.name != n);
        assert(e.id != id) by {
            if e.id == id {
                assert(told.name == Some(e.name));
            }
        }
        assert(r.agendas[e.id.when][e.id.index] == m.agendas[e.id.when][e.id.index]) by {
            if e.id.when == id.when {
                assert(e.id.index != id.index);
            }
        }
    }
    assert forall|k: u64, i: int|
        #![trigger r.agendas[k][i]]
        r.agendas.contains_key(k) && 0 <= i < r.agendas[k].len() implies {
        let t = r.agendas[k][i];
        &&& r.wf_task(t)
        &&& match t.name {
            Some(nn) => name_lookup(r.names, nn) == Some(TaskIdModel { when: k, index: i }),
            None => true,
        }
    } by {
        assert(m.wf_task(m.agendas[k][i]));
        if !(k == id.when && i == id.index) {
            assert(r.agendas[k][i] == m.agendas[k][i]);
            match m.agendas[k][i].name {
                Some(nn) => {
                    assert(nn != n) by {
                        if nn == n {
                            assert(name_lookup(m.names, n) == Some(
                                TaskIdModel { when: k, index: i },
                            ));
                        }
                    }
                    lemma_lookup_remove_other(m.names, n, nn);
                },
                None => {},
            }
        }
    }
    assert forall|k: u64| #[trigger] r.agendas.contains_key(k) implies r.agendas[k].len() >= 1 by {
        if k != id.when {
            assert(r.agendas[k] == m.agendas[k]);
        }
    }
    assert forall|k1: u64, i1: int, k2: u64, i2: int|
        #![trigger r.agendas[k1][i1], r.agendas[k2][i2]]
        r.agendas.contains_key(k1) && 0 <= i1 < r.agendas[k1].len() && r.agendas.contains_key(k2)
            && 0 <= i2 < r.agendas[k2].len() && !(k1 == k2 && i1 == i2) implies r.agendas[k1][i1].seq
        != r.agendas[k2][i2].seq by {
        assert(m.agendas[k1][i1].seq != m.agendas[k2][i2].seq);
    }
}

} // verus!
