//! Laws of the scheduler, stated and proved over the model of
//! [`crate::model`]: naming is idempotent; no dispatch is ever made for an
//! unresolvable task, which an inexhaustible budget moreover purges from the
//! store entirely; and a step's outcome is a function of its inputs.

use vstd::prelude::*;
use crate::model::{
    defer_tasks, lemma_sort_contains, lemma_step_inv, rearmed_task, rearms, run_tasks, sort_tasks,
    step_frame, step_model, SchedModel,
};
use crate::names::{lemma_name_lookup_push, name_lookup, NameEntryModel};
use crate::preimages::resolve_ref;
use crate::task::{Call, DispatchRecord, TaskModel};
use crate::weight::Weight;

verus! {

/// Idempotent naming: scheduling a named task binds its name, so by
/// [`crate::engine::Scheduler::schedule_named`]'s contract a second named
/// schedule under the same name, issued before the task is cancelled or
/// executed, must return `NameAlreadyUsed` and leave the state — the
/// original task included — unchanged.
pub proof fn lemma_idempotent_naming(m: SchedModel, at: u64, t: TaskModel)
    requires
        t.name is Some,
    ensures
        name_lookup(m.with_scheduled(at, t).names, t.name->Some_0) is Some,
{
    let n = t.name->Some_0;
    let e = NameEntryModel { name: n, id: m.next_slot(at) };
    lemma_name_lookup_push(m.names, e, n);
}

/// Determinism: a step's outcome — resulting state, ordered dispatch
/// sequence, budget spent — is a function of the starting state, the step
/// number, the budget and the preimage store alone. Together with the
/// mutation contracts, whose results are likewise functions of state and
/// arguments, two initially identical stores driven through identical
/// `schedule`/`cancel` calls and identical steps end in identical states and
/// emit identical dispatch sequences.
pub proof fn lemma_step_deterministic(
    m1: SchedModel,
    m2: SchedModel,
    now: u64,
    budget: Weight,
    pre1: Seq<(u64, Call)>,
    pre2: Seq<(u64, Call)>,
)
    requires
        m1 == m2,
        pre1 == pre2,
    ensures
        step_model(m1, now, budget, pre1) == step_model(m2, now, budget, pre2),
{
}

/// Order preservation under deferral: moving an agenda's unprocessed tail
/// leaves the next step's agenda as its old content followed by exactly the
/// deferred tasks, unchanged and in their relative order, with their
/// priority and insertion keys intact; no other agenda is touched.
pub proof fn lemma_defer_order(m: SchedModel, tasks: Seq<TaskModel>, target: u64)
    ensures
        defer_tasks(m, tasks, target).agenda_at(target) == m.agenda_at(target) + tasks,
        forall|k: u64|
            k != target ==> #[trigger] defer_tasks(m, tasks, target).agenda_at(k) == m.agenda_at(
                k,
            ),
    decreases tasks.len(),
{
    if tasks.len() == 0 {
        assert(m.agenda_at(target) + tasks =~= m.agenda_at(target));
    } else {
        let m1 = m.append_task(target, tasks[0]);
        assert(m1.agenda_at(target) == m.agenda_at(target).push(tasks[0]));
        assert forall|k: u64| k != target implies #[trigger] m1.agenda_at(k) == m.agenda_at(k) by {
            if m.agendas.contains_key(k) {
                assert(m1.agendas[k] == m.agendas[k]);
            }
        }
        lemma_defer_order(m1, tasks.skip(1), target);
        assert(m.agenda_at(target).push(tasks[0]) + tasks.skip(1) =~= m.agenda_at(target) + tasks);
    }
}

/// What a run requires of a record it may emit: it stems from a pending
/// in-flight task whose call resolves.
pub open spec fn from_flight(
    tasks: Seq<TaskModel>,
    pre: Seq<(u64, Call)>,
    rec: DispatchRecord,
) -> bool {
    exists|j: int|
        0 <= j < tasks.len() && (#[trigger] tasks[j]).status is Pending && resolve_ref(
            pre,
            tasks[j].call,
        ) is Some && rec.task_seq == tasks[j].seq
}

/// Every dispatch a run makes keeps what was already recorded and otherwise
/// comes from a pending task of the flight whose call resolves.
pub proof fn lemma_dispatch_provenance(
    m: SchedModel,
    tasks: Seq<TaskModel>,
    now: u64,
    budget: Weight,
    spent: Weight,
    disp: Seq<DispatchRecord>,
    pre: Seq<(u64, Call)>,
)
    ensures
        run_tasks(m, tasks, now, budget, spent, disp, pre).dispatched.len() >= disp.len(),
        forall|w: int|
            0 <= w < disp.len() ==> run_tasks(m, tasks, now, budget, spent, disp, pre).dispatched[w]
                == #[trigger] disp[w],
        forall|w: int|
            disp.len() <= w < run_tasks(m, tasks, now, budget, spent, disp, pre).dispatched.len()
                ==> from_flight(
                tasks,
                pre,
                #[trigger] run_tasks(m, tasks, now, budget, spent, disp, pre).dispatched[w],
            ),
    decreases tasks.len(),
{
    if tasks.len() == 0 {
    } else {
        let t = tasks[0];
        let rest = tasks.skip(1);
        let out = run_tasks(m, tasks, now, budget, spent, disp, pre);
        assert(forall|j: int| 0 <= j < rest.len() ==> #[trigger] rest[j] == tasks[j + 1]);
        if t.status is Aborted {
            lemma_dispatch_provenance(
                m.drop_name_of(t),
                rest,
                now,
                budget,
                spent.spec_add(m.costs.bookkeeping),
                disp,
                pre,
            );
            assert forall|w: int| disp.len() <= w < out.dispatched.len() implies from_flight(
                tasks,
                pre,
                out.dispatched[w],
            ) by {
                let j = choose|j: int|
                    0 <= j < rest.len() && (#[trigger] rest[j]).status is Pending && resolve_ref(
                        pre,
                        rest[j].call,
                    ) is Some && out.dispatched[w].task_seq == rest[j].seq;
                assert(tasks[j + 1] == rest[j]);
            }
        } else {
            match resolve_ref(pre, t.call) {
                None => {
                    lemma_dispatch_provenance(
                        m.drop_name_of(t),
                        rest,
                        now,
                        budget,
                        spent.spec_add(m.costs.preimage_lookup),
                        disp,
                        pre,
                    );
                    assert forall|w: int| disp.len() <= w < out.dispatched.len() implies from_flight(
                        tasks,
                        pre,
                        out.dispatched[w],
                    ) by {
                        let j = choose|j: int|
                            0 <= j < rest.len() && (#[trigger] rest[j]).status is Pending
                                && resolve_ref(pre, rest[j].call) is Some
                                && out.dispatched[w].task_seq == rest[j].seq;
                        assert(tasks[j + 1] == rest[j]);
                    }
                },
                Some(c) => {
                    if !spent.spec_add(c.cost).spec_fits(budget) {
                    } else {
                        let rec = DispatchRecord {
                            task_seq: t.seq,
                            origin: t.origin,
                            success: c.succeeds,
                            consumed: c.actual_cost,
                        };
                        let disp2 = disp.push(rec);
                        let m2 = match t.periodic {
                            Some(p) => if rearms(t) {
                                m.append_task(
                                    crate::weight::spec_sat_add64(now, p.interval),
                                    rearmed_task(t, p),
                                )
                            } else {
                                m.drop_name_of(t)
                            },
                            None => m.drop_name_of(t),
                        };
                        lemma_dispatch_provenance(
                            m2,
                            rest,
                            now,
                            budget,
                            spent.spec_add(c.actual_cost),
                            disp2,
                            pre,
                        );
                        assert forall|w: int| 0 <= w < disp.len() implies out.dispatched[w]
                            == #[trigger] disp[w] by {
                            assert(out.dispatched[w] == disp2[w]);
                            assert(disp2[w] == disp[w]);
                        }
                        assert forall|w: int| disp.len() <= w < out.dispatched.len() implies from_flight(
                            tasks,
                            pre,
                            out.dispatched[w],
                        ) by {
                            if w == disp.len() {
                                assert(out.dispatched[w] == disp2[disp.len() as int]);
                                assert(disp2[disp.len() as int] == rec);
                                assert(tasks[0].status is Pending && resolve_ref(pre, tasks[0].call)
                                    is Some && rec.task_seq == tasks[0].seq);
                            } else {
                                let j = choose|j: int|
                                    0 <= j < rest.len() && (#[trigger] rest[j]).status is Pending
                                        && resolve_ref(pre, rest[j].call) is Some
                                        && out.dispatched[w].task_seq == rest[j].seq;
                                assert(tasks[j + 1] == rest[j]);
                            }
                        }
                    }
                },
            }
        }
    }
}

/// A budget neither of whose dimensions any accumulated cost can exceed:
/// under it nothing is ever deferred.
pub open spec fn unbounded_budget() -> Weight {
    Weight { compute: u64::MAX, io: u64::MAX }
}

/// The slots after an append are the old slots plus the appended task.
proof fn lemma_append_slots(m: SchedModel, target: u64, t2: TaskModel)
    ensures
        forall|k: u64, i: int|
            #![trigger m.append_task(target, t2).agendas[k][i]]
            m.append_task(target, t2).agendas.contains_key(k) && 0 <= i < m.append_task(
                target,
                t2,
            ).agendas[k].len() ==> (m.agendas.contains_key(k) && 0 <= i < m.agendas[k].len()
                && m.append_task(target, t2).agendas[k][i] == m.agendas[k][i]) || m.append_task(
                target,
                t2,
            ).agendas[k][i] == t2,
{
    let r = m.append_task(target, t2);
    let a = m.agenda_at(target);
    assert(r.agendas[target] == a.push(t2));
    assert forall|k: u64, i: int|
        #![trigger r.agendas[k][i]]
        r.agendas.contains_key(k) && 0 <= i < r.agendas[k].len() implies (m.agendas.contains_key(k)
        && 0 <= i < m.agendas[k].len() && r.agendas[k][i] == m.agendas[k][i]) || r.agendas[k][i]
        == t2 by {
        if k == target {
            if i < a.len() {
                assert(m.agendas.contains_key(target) ==> a == m.agendas[target]);
                assert(r.agendas[target][i] == a[i]);
            } else {
                assert(i == a.len());
            }
        } else {
            assert(r.agendas[k] == m.agendas[k]);
        }
    }
}

/// Under an inexhaustible budget, a run stores no task carrying the counter
/// `sq`, provided no stored task carries it and every in-flight task that
/// does is a tombstone or unresolvable.
pub proof fn lemma_unresolvable_vanishes(
    m: SchedModel,
    tasks: Seq<TaskModel>,
    now: u64,
    spent: Weight,
    disp: Seq<DispatchRecord>,
    pre: Seq<(u64, Call)>,
    sq: u64,
)
    requires
        forall|k: u64, i: int|
            #![trigger m.agendas[k][i]]
            m.agendas.contains_key(k) && 0 <= i < m.agendas[k].len() ==> m.agendas[k][i].seq != sq,
        forall|j: int|
            0 <= j < tasks.len() && (#[trigger] tasks[j]).seq == sq ==> (tasks[j].status is Aborted
                || resolve_ref(pre, tasks[j].call) is None),
    ensures
        ({
            let fin = run_tasks(m, tasks, now, unbounded_budget(), spent, disp, pre).m;
            forall|k: u64, i: int|
                #![trigger fin.agendas[k][i]]
                fin.agendas.contains_key(k) && 0 <= i < fin.agendas[k].len()
                    ==> fin.agendas[k][i].seq != sq
        }),
    decreases tasks.len(),
{
    if tasks.len() > 0 {
        let t = tasks[0];
        let rest = tasks.skip(1);
        assert(forall|j: int| 0 <= j < rest.len() ==> #[trigger] rest[j] == tasks[j + 1]);
        if t.status is Aborted {
            lemma_unresolvable_vanishes(
                m.drop_name_of(t),
                rest,
                now,
                spent.spec_add(m.costs.bookkeeping),
                disp,
                pre,
                sq,
            );
        } else {
            match resolve_ref(pre, t.call) {
                None => {
                    lemma_unresolvable_vanishes(
                        m.drop_name_of(t),
                        rest,
                        now,
                        spent.spec_add(m.costs.preimage_lookup),
                        disp,
                        pre,
                        sq,
                    );
                },
                Some(c) => {
                    assert(spent.spec_add(c.cost).spec_fits(unbounded_budget()));
                    assert(t.seq != sq);
                    let disp2 = disp.push(
                        DispatchRecord {
                            task_seq: t.seq,
                            origin: t.origin,
                            success: c.succeeds,
                            consumed: c.actual_cost,
                        },
                    );
                    match t.periodic {
                        Some(p) => {
                            if rearms(t) {
                                let target = crate::weight::spec_sat_add64(now, p.interval);
                                let t2 = rearmed_task(t, p);
                                let m2 = m.append_task(target, t2);
                                lemma_append_slots(m, target, t2);
                                lemma_unresolvable_vanishes(
                                    m2,
                                    rest,
                                    now,
                                    spent.spec_add(c.actual_cost),
                                    disp2,
                                    pre,
                                    sq,
                                );
                            } else {
                                lemma_unresolvable_vanishes(
                                    m.drop_name_of(t),
                                    rest,
                                    now,
                                    spent.spec_add(c.actual_cost),
                                    disp2,
                                    pre,
                                    sq,
                                );
                            }
                        },
                        None => {
                            lemma_unresolvable_vanishes(
                                m.drop_name_of(t),
                                rest,
                                now,
                                spent.spec_add(c.actual_cost),
                                disp2,
                                pre,
                                sq,
                            );
                        },
                    }
                },
            }
        }
    }
}

/// Preimage abort: a pending task whose hash the store cannot resolve is
/// never dispatched by its execution step, whatever the budget; and under a
/// budget nothing can exceed (so the tail is never deferred) the step purges
/// it outright — afterwards no agenda holds a task with its insertion
/// counter. A tighter budget can only defer it to the next step, never
/// dispatch it.
pub proof fn lemma_preimage_abort(
    m: SchedModel,
    now: u64,
    budget: Weight,
    pre: Seq<(u64, Call)>,
    x: TaskModel,
)
    requires
        m.wf(),
        m.agenda_at(now).contains(x),
        x.status is Pending,
        resolve_ref(pre, x.call) is None,
    ensures
        forall|w: int|
            0 <= w < step_model(m, now, budget, pre).dispatched.len() ==> (#[trigger] step_model(
                m,
                now,
                budget,
                pre,
            ).dispatched[w]).task_seq != x.seq,
        budget == unbounded_budget() ==> forall|k: u64, i: int|
            #![trigger step_model(m, now, budget, pre).m.agendas[k][i]]
            step_model(m, now, budget, pre).m.agendas.contains_key(k) && 0 <= i < step_model(
                m,
                now,
                budget,
                pre,
            ).m.agendas[k].len() ==> step_model(m, now, budget, pre).m.agendas[k][i].seq != x.seq,
{
    lemma_step_inv(m, now);
    let f = step_frame(m, now);
    let ts = sort_tasks(m.agenda_at(now));
    let out = step_model(m, now, budget, pre);
    lemma_sort_contains(m.agenda_at(now), x);
    let jx = choose|j: int| 0 <= j < ts.len() && ts[j] == x;
    lemma_dispatch_provenance(
        f,
        ts,
        now,
        budget,
        Weight::spec_zero(),
        Seq::empty(),
        pre,
    );
    assert forall|w: int| 0 <= w < out.dispatched.len() implies (#[trigger] out.dispatched[w]).task_seq
        != x.seq by {
        if out.dispatched[w].task_seq == x.seq {
            assert(from_flight(ts, pre, out.dispatched[w]));
            let j = choose|j: int|
                0 <= j < ts.len() && (#[trigger] ts[j]).status is Pending && resolve_ref(
                    pre,
                    ts[j].call,
                ) is Some && out.dispatched[w].task_seq == ts[j].seq;
            assert(j != jx);
            if j < jx {
                assert(ts[j].seq != ts[jx].seq);
            } else {
                assert(ts[jx].seq != ts[j].seq);
            }
        }
    }
    if budget == unbounded_budget() {
        assert forall|j: int| 0 <= j < ts.len() && (#[trigger] ts[j]).seq == x.seq implies (ts[j].status
            is Aborted || resolve_ref(pre, ts[j].call) is None) by {
            if j != jx {
                if j < jx {
                    assert(ts[j].seq != ts[jx].seq);
                } else {
                    assert(ts[jx].seq != ts[j].seq);
                }
            }
        }
        assert forall|k: u64, i: int|
            #![trigger f.agendas[k][i]]
            f.agendas.contains_key(k) && 0 <= i < f.agendas[k].len() implies f.agendas[k][i].seq
            != x.seq by {
            assert(ts[jx].seq != f.agendas[k][i].seq);
        }
        lemma_unresolvable_vanishes(
            f,
            ts,
            now,
            Weight::spec_zero(),
            Seq::empty(),
            pre,
            x.seq,
        );
    }
}

} // verus!
