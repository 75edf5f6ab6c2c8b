//! The scheduler engine: the task store (agendas keyed by step), the name
//! index, and the mutation and step-execution API, each proved to implement
//! the corresponding transformation of [`crate::model`].

use vstd::prelude::*;
use std::collections::HashMap;
use crate::model::{
    defer_tasks, lemma_min_index_in_range, lemma_step_wf, lemma_wf_cancel, lemma_wf_cancel_named,
    lemma_wf_schedule, min_index, rearmed_task, run_tasks, sort_tasks, step_frame, step_model,
    SchedModel, StepOutcome,
};
use crate::names::{
    copy_bytes, find_name, lemma_name_absent, lemma_name_found, name_lookup,
    names_model, remove_name, set_name, NameEntry,
};
use crate::preimages::{resolve_ref, PreimageStore};
use crate::task::{
    task_before, Call, CallRef, DispatchRecord, Period, StepReport, Task, TaskId, TaskIdModel,
    TaskModel, TaskStatus,
};
use crate::weight::{sat_add64, spec_sat_add64, CostParams, Weight};

verus! {

broadcast use vstd::std_specs::hash::group_hash_axioms;

/// Why a mutation was rejected. No rejected mutation changes any state.
#[derive(Clone, Copy, PartialEq, Eq, Structural, Debug)]
pub enum SchedError {
    /// `schedule_named` was given a name that currently resolves.
    NameAlreadyUsed,
    /// `cancel` was given a location that holds no task.
    TaskNotFound,
    /// `cancel_named` was given a name that does not resolve.
    NameNotFound,
}

/// The image of one stored agenda.
pub open spec fn tasks_model(s: Seq<Task>) -> Seq<TaskModel> {
    s.map_values(|t: Task| t@)
}

/// The image of the whole task store.
pub open spec fn agendas_model(m: Map<u64, Vec<Task>>) -> Map<u64, Seq<TaskModel>> {
    m.map_values(|v: Vec<Task>| tasks_model(v@))
}

/// The scheduler engine. All access to the task store and the name index
/// goes through its methods; the view is the abstract state of
/// [`crate::model`], and every method's contract is stated against it.
pub struct Scheduler {
    agendas: HashMap<u64, Vec<Task>>,
    names: Vec<NameEntry>,
    next_seq: u64,
    horizon: u64,
    costs: CostParams,
}

impl View for Scheduler {
    type V = SchedModel;

    closed spec fn view(&self) -> SchedModel {
        SchedModel {
            agendas: agendas_model(self.agendas@),
            names: names_model(self.names@),
            next_seq: self.next_seq,
            horizon: self.horizon,
            costs: self.costs,
        }
    }
}

impl Scheduler {
    /// A fresh engine with the given fixed service charges.
    pub fn new(costs: CostParams) -> (r: Scheduler)
        ensures
            r@ == SchedModel::init(costs),
            r@.wf(),
    {
        let r = Scheduler {
            agendas: HashMap::new(),
            names: Vec::new(),
            next_seq: 0,
            horizon: 0,
            costs,
        };
        proof {
            assert(r@ =~~= SchedModel::init(costs));
        }
        r
    }

    /// Append `t` to the agenda for `at`, touching nothing else.
    fn push_to_agenda(&mut self, at: u64, t: Task) -> (id: TaskId)
        ensures
            final(self)@.agendas == old(self)@.agendas.insert(
                at,
                old(self)@.agenda_at(at).push(t@),
            ),
            final(self)@.names == old(self)@.names,
            final(self)@.next_seq == old(self)@.next_seq,
            final(self)@.horizon == old(self)@.horizon,
            final(self)@.costs == old(self)@.costs,
            id@ == old(self)@.next_slot(at),
    {
        let ghost m0 = self@;
        let mut v: Vec<Task> = match self.agendas.remove(&at) {
            Some(v) => v,
            None => Vec::new(),
        };
        let index = v.len();
        proof {
            assert(tasks_model(v@) == m0.agenda_at(at));
        }
        v.push(t);
        proof {
            assert(tasks_model(v@) =~= m0.agenda_at(at).push(t@));
        }
        self.agendas.insert(at, v);
        proof {
            assert(self@.agendas =~= m0.agendas.insert(at, m0.agenda_at(at).push(t@)));
        }
        TaskId { when: at, index }
    }

    /// Append `t` to the agenda for `when` and, where `t` is named, retarget
    /// its index entry to the new location.
    fn place(&mut self, when: u64, t: Task)
        ensures
            final(self)@ == old(self)@.append_task(when, t@),
    {
        let ghost m0 = self@;
        let name: Option<Vec<u8>> = match &t.name {
            Some(n) => Some(copy_bytes(n)),
            None => None,
        };
        let id = self.push_to_agenda(when, t);
        match &name {
            Some(n) => {
                set_name(&mut self.names, n, id);
            },
            None => {},
        }
        proof {
            assert(self@ =~~= m0.append_task(when, t@));
        }
    }

    /// Enqueue an anonymous task for step `at` (which must not have executed
    /// yet): it is appended to that step's agenda and gets the next insertion
    /// counter. Anonymous scheduling always succeeds; duplicates are
    /// independent tasks.
    pub fn schedule(
        &mut self,
        at: u64,
        priority: u8,
        origin: u64,
        call: CallRef,
        periodic: Option<Period>,
    ) -> (id: TaskId)
        requires
            old(self)@.wf(),
            at >= old(self)@.horizon,
            old(self)@.next_seq < u64::MAX,
            match periodic {
                Some(p) => p.interval >= 1,
                None => true,
            },
    ensures
            final(self)@ == old(self)@.with_scheduled(
                at,
                TaskModel {
                    name: None,
                    call,
                    origin,
                    priority,
                    periodic,
                    status: TaskStatus::Pending,
                    seq: old(self)@.next_seq,
                },
            ),
            final(self)@.wf(),
            id@ == old(self)@.next_slot(at),
    {
        let ghost m0 = self@;
        let t = Task {
            name: None,
            call,
            origin,
            priority,
            periodic,
            status: TaskStatus::Pending,
            seq: self.next_seq,
        };
        let ghost tm = t@;
        let id = self.push_to_agenda(at, t);
        self.next_seq = self.next_seq + 1;
        proof {
            assert(self@ =~~= m0.with_scheduled(at, tm));
            lemma_wf_schedule(m0, at, tm);
        }
        id
    }

    /// Enqueue a named task for step `at`. Fails with `NameAlreadyUsed`, and
    /// changes nothing, exactly when the name currently resolves; on success
    /// the task and its index entry appear atomically.
    pub fn schedule_named(
        &mut self,
        name: Vec<u8>,
        at: u64,
        priority: u8,
        origin: u64,
        call: CallRef,
        periodic: Option<Period>,
    ) -> (r: Result<TaskId, SchedError>)
        requires
            old(self)@.wf(),
            at >= old(self)@.horizon,
            old(self)@.next_seq < u64::MAX,
            match periodic {
                Some(p) => p.interval >= 1,
                None => true,
            },
    ensures
            match r {
                Ok(id) => {
                    &&& name_lookup(old(self)@.names, name@) is None
                    &&& final(self)@ == old(self)@.with_scheduled(
                        at,
                        TaskModel {
                            name: Some(name@),
                            call,
                            origin,
                            priority,
                            periodic,
                            status: TaskStatus::Pending,
                            seq: old(self)@.next_seq,
                        },
                    )
                    &&& final(self)@.wf()
                    &&& id@ == old(self)@.next_slot(at)
                },
                Err(e) => {
                    &&& e == SchedError::NameAlreadyUsed
                    &&& name_lookup(old(self)@.names, name@) is Some
                    &&& final(self)@ == old(self)@
                },
            },
    {
        let ghost m0 = self@;
        match find_name(&self.names, &name) {
            Some(j) => {
                proof {
                    lemma_name_found(m0.names, name@, m0.names[j as int].id, j as int);
                }
                Err(SchedError::NameAlreadyUsed)
            },
            None => {
                proof {
                    lemma_name_absent(m0.names, name@, TaskIdModel { when: 0, index: 0 });
                }
                let entry_name = copy_bytes(&name);
                let t = Task {
                    name: Some(name),
                    call,
                    origin,
                    priority,
                    periodic,
                    status: TaskStatus::Pending,
                    seq: self.next_seq,
                };
                let ghost tm = t@;
                let id = self.push_to_agenda(at, t);
                self.names.push(NameEntry { name: entry_name, id });
                self.next_seq = self.next_seq + 1;
                proof {
                    assert(names_model(self.names@) =~= m0.names.push(
                        NameEntry { name: entry_name, id }@,
                    ));
                    assert(self@ =~~= m0.with_scheduled(at, tm));
                    lemma_wf_schedule(m0, at, tm);
                }
                Ok(id)
            },
        }
    }

    /// Abort the task at `id` in place: its slot stays where it is (so no
    /// other location shifts) and the name index is untouched; the tombstone
    /// is purged when its step executes. Fails with `TaskNotFound`, and
    /// changes nothing, exactly when no task is stored at `id`.
    pub fn cancel(&mut self, id: TaskId) -> (r: Result<(), SchedError>)
        requires
            old(self)@.wf(),
        ensures
            match r {
                Ok(_) => {
                    &&& old(self)@.task_at(id@) is Some
                    &&& final(self)@ == old(self)@.with_cancelled(id@)
                    &&& final(self)@.wf()
                },
                Err(e) => {
                    &&& e == SchedError::TaskNotFound
                    &&& old(self)@.task_at(id@) is None
                    &&& final(self)@ == old(self)@
                },
            },
    {
        let ghost m0 = self@;
        match self.agendas.remove(&id.when) {
            Some(mut v) => {
                proof {
                    assert(tasks_model(v@) == m0.agendas[id.when]);
                }
                if id.index < v.len() {
                    let mut t = v.remove(id.index);
                    let ghost told = t@;
                    t.status = TaskStatus::Aborted;
                    v.insert(id.index, t);
                    proof {
                        assert(tasks_model(v@) =~= m0.agendas[id.when].update(
                            id.index as int,
                            TaskModel { status: TaskStatus::Aborted, ..told },
                        ));
                    }
                    self.agendas.insert(id.when, v);
                    proof {
                        assert(self@ =~~= m0.with_cancelled(id@));
                        lemma_wf_cancel(m0, id@);
                    }
                    Ok(())
                } else {
                    self.agendas.insert(id.when, v);
                    proof {
                        assert(self@ =~~= m0);
                    }
                    Err(SchedError::TaskNotFound)
                }
            },
            None => {
                proof {
                    assert(self@ =~~= m0);
                }
                Err(SchedError::TaskNotFound)
            },
        }
    }

    /// Resolve `name`, abort the referenced task in place, strip its name,
    /// and remove the index entry at once — the name is reusable right away,
    /// unlike after a plain `cancel`. Fails with `NameNotFound`, and changes
    /// nothing, exactly when the name does not resolve.
    pub fn cancel_named(&mut self, name: &Vec<u8>) -> (r: Result<(), SchedError>)
        requires
            old(self)@.wf(),
        ensures
            match r {
                Ok(_) => {
                    &&& name_lookup(old(self)@.names, name@) is Some
                    &&& final(self)@ == old(self)@.with_cancelled_named(name@)
                    &&& final(self)@.wf()
                },
                Err(e) => {
                    &&& e == SchedError::NameNotFound
                    &&& name_lookup(old(self)@.names, name@) is None
                    &&& final(self)@ == old(self)@
                },
            },
    {
        let ghost m0 = self@;
        match find_name(&self.names, name) {
            None => {
                proof {
                    lemma_name_absent(m0.names, name@, TaskIdModel { when: 0, index: 0 });
                }
                Err(SchedError::NameNotFound)
            },
            Some(j) => {
                let id = self.names[j].id;
                proof {
                    lemma_name_found(m0.names, name@, id@, j as int);
                    assert(name_lookup(m0.names, name@) == Some(m0.names[j as int].id));
                    assert(m0.names[j as int].id == id@);
                    crate::model::lemma_lookup_valid(m0, name@, id@);
                }
                let mut v: Vec<Task> = match self.agendas.remove(&id.when) {
                    Some(v) => v,
                    None => {
                        proof {
                            assert(false);
                        }
                        Vec::new()
                    },
                };
                proof {
                    assert(tasks_model(v@) == m0.agendas[id.when]);
                }
                let mut t = v.remove(id.index);
                let ghost told = t@;
                t.status = TaskStatus::Aborted;
                t.name = None;
                v.insert(id.index, t);
                proof {
                    assert(tasks_model(v@) =~= m0.agendas[id.when].update(
                        id.index as int,
                        TaskModel { name: None, status: TaskStatus::Aborted, ..told },
                    ));
                }
                self.agendas.insert(id.when, v);
                self.names.remove(j);
                proof {
                    assert(names_model(self.names@) =~= m0.names.remove(j as int));
                    assert(self@ =~~= m0.with_cancelled_named(name@));
                    crate::model::lemma_wf_cancel_named(m0, name@);
                }
                Ok(())
            },
        }
    }

    /// Execute one step: run the agenda for `now` in execution order under
    /// `budget`, purging tombstones at the bookkeeping charge, aborting and
    /// purging tasks whose hash does not resolve at the lookup charge,
    /// stopping at the first task whose estimate does not fit and deferring
    /// the whole remaining tail, in order, to step `now + 1`, and re-arming
    /// periodic tasks `interval` steps ahead. Returns the ordered dispatch
    /// invocations and the budget spent; the resulting state and report are
    /// exactly [`step_model`] of the inputs, so every node reaches the same
    /// outcome.
    pub fn on_step(&mut self, now: u64, budget: Weight, pre: &PreimageStore) -> (r: StepReport)
        requires
            old(self)@.wf(),
            old(self)@.horizon <= now,
            now < u64::MAX,
        ensures
            final(self)@ == step_model(old(self)@, now, budget, pre@).m,
            final(self)@.wf(),
            r.dispatched@ == step_model(old(self)@, now, budget, pre@).dispatched,
            r.spent == step_model(old(self)@, now, budget, pre@).spent,
    {
        let ghost m_init = self@;
        let ghost goal = step_model(m_init, now, budget, pre@);

        // take the step's agenda out of the store and advance the horizon
        let mut rest: Vec<Task> = match self.agendas.remove(&now) {
            Some(v) => v,
            None => Vec::new(),
        };
        self.horizon = now + 1;
        proof {
            assert(spec_sat_add64(now, 1) == now + 1);
            assert(self@ =~~= step_frame(m_init, now));
            assert(tasks_model(rest@) == m_init.agenda_at(now));
        }

        // bring the agenda into execution order
        let ghost a0 = tasks_model(rest@);
        let mut sorted: Vec<Task> = Vec::new();
        proof {
            assert(tasks_model(sorted@) + sort_tasks(a0) =~= sort_tasks(a0));
        }
        while rest.len() > 0
            invariant
                tasks_model(sorted@) + sort_tasks(tasks_model(rest@)) == sort_tasks(a0),
            decreases rest.len(),
        {
            let ghost models = tasks_model(rest@);
            let mut best: usize = 0;
            let mut cand: usize = 1;
            proof {
                assert(models.take(1) =~= seq![models[0]]);
            }
            while cand < rest.len()
                invariant
                    rest@.len() > 0,
                    best < cand <= rest.len(),
                    models == tasks_model(rest@),
                    best as int == min_index(models.take(cand as int)),
                decreases rest.len() - cand,
            {
                proof {
                    assert(models.take(cand + 1).drop_last() =~= models.take(cand as int));
                    assert(models.take(cand + 1).last() == models[cand as int]);
                    assert(models[cand as int] == rest@[cand as int]@);
                }
                if task_before(&rest[cand], &rest[best]) {
                    best = cand;
                }
                cand = cand + 1;
            }
            proof {
                assert(models.take(models.len() as int) =~= models);
                lemma_min_index_in_range(models);
            }
            let ghost sorted_before = tasks_model(sorted@);
            let t = rest.remove(best);
            sorted.push(t);
            proof {
                assert(tasks_model(rest@) =~= models.remove(best as int));
                assert(tasks_model(sorted@) =~= sorted_before.push(models[best as int]));
                assert(sort_tasks(models) == seq![models[min_index(models)]] + sort_tasks(
                    models.remove(min_index(models)),
                ));
                assert(tasks_model(sorted@) + sort_tasks(tasks_model(rest@)) =~= sorted_before
                    + sort_tasks(models));
            }
        }
        proof {
            assert(tasks_model(rest@).len() == 0);
            assert(tasks_model(sorted@) =~= sort_tasks(a0));
        }

        // run the ordered agenda against the budget
        let mut dispatched: Vec<DispatchRecord> = Vec::new();
        let mut spent = Weight::zero();
        proof {
            assert(dispatched@ =~= Seq::<DispatchRecord>::empty());
            assert(run_tasks(self@, tasks_model(sorted@), now, budget, spent, dispatched@, pre@)
                == goal);
        }
        while sorted.len() > 0
            invariant
                now < u64::MAX,
                run_tasks(self@, tasks_model(sorted@), now, budget, spent, dispatched@, pre@)
                    == goal,
            decreases sorted.len(),
        {
            let ghost prev = self@;
            let ghost tail = tasks_model(sorted@);
            let t = sorted.remove(0);
            let ghost tm = t@;
            proof {
                assert(tail[0] == tm);
                assert(tasks_model(sorted@) =~= tail.skip(1));
            }
            let is_aborted = match t.status {
                TaskStatus::Aborted => true,
                TaskStatus::Pending => false,
            };
            if is_aborted {
                spent = spent.saturating_add(self.costs.bookkeeping);
                match &t.name {
                    Some(n) => {
                        remove_name(&mut self.names, n);
                    },
                    None => {},
                }
                proof {
                    assert(self@ =~~= prev.drop_name_of(tm));
                }
            } else {
                let resolved: Option<Call> = match &t.call {
                    CallRef::Inline(c) => Some(*c),
                    CallRef::Hashed(h) => pre.fetch(*h),
                };
                proof {
                    assert(resolved == resolve_ref(pre@, tm.call));
                }
                match resolved {
                    None => {
                        spent = spent.saturating_add(self.costs.preimage_lookup);
                        match &t.name {
                            Some(n) => {
                                remove_name(&mut self.names, n);
                            },
                            None => {},
                        }
                        proof {
                            assert(self@ =~~= prev.drop_name_of(tm));
                        }
                    },
                    Some(c) => {
                        if !spent.saturating_add(c.cost).fits(budget) {
                            // budget exhausted: defer the whole remaining
                            // tail, in order, to the next step
                            let target = now + 1;
                            proof {
                                assert(target == spec_sat_add64(now, 1));
                                assert(goal == StepOutcome {
                                    m: defer_tasks(prev, tail, target),
                                    dispatched: dispatched@,
                                    spent,
                                });
                            }
                            self.place(target, t);
                            proof {
                                assert(defer_tasks(prev, tail, target) == defer_tasks(
                                    self@,
                                    tasks_model(sorted@),
                                    target,
                                ));
                            }
                            while sorted.len() > 0
                                invariant
                                    defer_tasks(prev, tail, target) == defer_tasks(
                                        self@,
                                        tasks_model(sorted@),
                                        target,
                                    ),
                                decreases sorted.len(),
                            {
                                let ghost cur = self@;
                                let ghost dtail = tasks_model(sorted@);
                                let t2 = sorted.remove(0);
                                proof {
                                    assert(dtail[0] == t2@);
                                    assert(tasks_model(sorted@) =~= dtail.skip(1));
                                }
                                self.place(target, t2);
                            }
                            proof {
                                assert(tasks_model(sorted@).len() == 0);
                                assert(self@ == defer_tasks(prev, tail, target));
                            }
                        } else {
                            spent = spent.saturating_add(c.actual_cost);
                            dispatched.push(
                                DispatchRecord {
                                    task_seq: t.seq,
                                    origin: t.origin,
                                    success: c.succeeds,
                                    consumed: c.actual_cost,
                                },
                            );
                            let rearm: Option<(u64, Period)> = match &t.periodic {
                                Some(p) => match p.remaining {
                                    Some(k) => if k == 0 {
                                        None
                                    } else {
                                        Some(
                                            (
                                                p.interval,
                                                Period {
                                                    interval: p.interval,
                                                    remaining: Some(k - 1),
                                                },
                                            ),
                                        )
                                    },
                                    None => Some(
                                        (p.interval, Period { interval: p.interval, remaining: None }),
                                    ),
                                },
                                None => None,
                            };
                            match rearm {
                                Some((interval, p2)) => {
                                    let target = sat_add64(now, interval);
                                    let mut t2 = t;
                                    t2.periodic = Some(p2);
                                    t2.status = TaskStatus::Pending;
                                    proof {
                                        assert(t2@ == rearmed_task(tm, tm.periodic->Some_0));
                                    }
                                    self.place(target, t2);
                                },
                                None => {
                                    match &t.name {
                                        Some(n) => {
                                            remove_name(&mut self.names, n);
                                        },
                                        None => {},
                                    }
                                    proof {
                                        assert(self@ =~~= prev.drop_name_of(tm));
                                    }
                                },
                            }
                        }
                    },
                }
            }
        }
        proof {
            assert(tasks_model(sorted@).len() == 0);
            assert(goal.m == self@ && goal.dispatched == dispatched@ && goal.spent == spent);
            lemma_step_wf(m_init, now, budget, pre@);
        }
        StepReport { dispatched, spent }
    }

    /// The first step that has not yet executed.
    pub fn current_horizon(&self) -> (r: u64)
        ensures
            r == self@.horizon,
    {
        self.horizon
    }

    /// How many slots (pending tasks and tombstones) the agenda for `when`
    /// holds.
    pub fn agenda_len(&self, when: u64) -> (r: usize)
        ensures
            r == self@.agenda_at(when).len(),
    {
        match self.agendas.get(&when) {
            Some(v) => v.len(),
            None => 0,
        }
    }

    /// The insertion counter of the task at `id`, if the location is
    /// occupied.
    pub fn task_seq(&self, id: TaskId) -> (r: Option<u64>)
        ensures
            r == match self@.task_at(id@) {
                Some(t) => Some(t.seq),
                None => None::<u64>,
            },
    {
        match self.agendas.get(&id.when) {
            Some(v) => if id.index < v.len() {
                Some(v[id.index].seq)
            } else {
                None
            },
            None => None,
        }
    }

    /// The status of the task at `id`, if the location is occupied.
    pub fn task_status(&self, id: TaskId) -> (r: Option<TaskStatus>)
        ensures
            r == match self@.task_at(id@) {
                Some(t) => Some(t.status),
                None => None::<TaskStatus>,
            },
    {
        match self.agendas.get(&id.when) {
            Some(v) => if id.index < v.len() {
                Some(v[id.index].status)
            } else {
                None
            },
            None => None,
        }
    }

    /// The periodic rule of the task at `id`, if the location is occupied.
    pub fn task_period(&self, id: TaskId) -> (r: Option<Option<Period>>)
        ensures
            r == match self@.task_at(id@) {
                Some(t) => Some(t.periodic),
                None => None::<Option<Period>>,
            },
    {
        match self.agendas.get(&id.when) {
            Some(v) => if id.index < v.len() {
                Some(v[id.index].periodic)
            } else {
                None
            },
            None => None,
        }
    }

    /// Where `name` currently resolves to, if anywhere.
    pub fn name_location(&self, name: &Vec<u8>) -> (r: Option<TaskId>)
        ensures
            match r {
                Some(id) => name_lookup(self@.names, name@) == Some(id@),
                None => name_lookup(self@.names, name@) is None,
            },
    {
        match find_name(&self.names, name) {
            Some(j) => {
                proof {
                    lemma_name_found(
                        self@.names,
                        name@,
                        self@.names[j as int].id,
                        j as int,
                    );
                }
                Some(self.names[j].id)
            },
            None => {
                proof {
                    lemma_name_absent(self@.names, name@, TaskIdModel { when: 0, index: 0 });
                }
                None
            },
        }
    }
}

} // verus!
