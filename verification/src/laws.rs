//! What holds of a module over any sequence of its operations.
use crate::executor::{
    ids_of, lemma_complete_all, lemma_complete_all_records, lemma_complete_all_untouched,
    lemma_spawn_all, lemma_spawn_all_wf, spawned_table, spawned_tasks, ExecutorView,
    TaskControlBlock,
};
use crate::module::{ModuleOp, ModuleView};
use crate::types::{AsyncCallArguments, AsyncCallReturnValue};
use vstd::prelude::*;

verus! {

/// The number of event-loop turns among `ops`.
pub open spec fn count_steps(ops: Seq<ModuleOp>) -> nat
    decreases ops.len(),
{
    if ops.len() == 0 {
        0
    } else {
        (if ops[0] is Step { 1nat } else { 0nat }) + count_steps(ops.drop_first())
    }
}

/// Whether `op` takes task `t`'s answer or delivers an answer to task `t`.
pub open spec fn touches(op: ModuleOp, t: usize) -> bool {
    match op {
        ModuleOp::TakeRet(id) => id == t,
        ModuleOp::PushCq(ret) => ret.caller_task_id == t,
        _ => false,
    }
}

/// Whether no answer in `rets` is addressed to task `t`.
pub open spec fn none_for(rets: Seq<AsyncCallReturnValue>, t: usize) -> bool {
    forall|i: int| 0 <= i < rets.len() ==> #[trigger] rets[i].caller_task_id != t
}

/// The ids of the tasks that answers are addressed to, in order.
pub open spec fn answered_ids(rets: Seq<AsyncCallReturnValue>) -> Seq<usize> {
    rets.map_values(|r: AsyncCallReturnValue| r.caller_task_id)
}

/// The ready queue after a turn's draining: the old ready ids, then the new
/// tasks' ids, then the ids of the answered tasks.
proof fn lemma_drained(v: ModuleView)
    requires
        v.wf(),
        v.can_step(),
    ensures
        v.drained_executor().wf(),
        v.drained_executor().ready == v.executor.ready + ids_of(
            spawned_tasks(v.executor.current_task_id, v.calls),
        ) + answered_ids(v.completions),
        v.drained_executor().current_task_id == v.executor.current_task_id + v.calls.len(),
        forall|id: usize| #[trigger]
            v.executor.tasks.contains_key(id) ==> v.drained_executor().tasks.contains_key(id)
                && v.drained_executor().tasks[id].args == v.executor.tasks[id].args,
        forall|t: usize|
            v.executor.tasks.contains_key(t) && none_for(v.completions, t) ==> #[trigger]
            v.drained_executor().tasks[t] == v.executor.tasks[t],
{
    let e = v.executor.spawn_all(v.calls);
    lemma_spawn_all(v.executor, v.calls);
    lemma_spawn_all_wf(v.executor, v.calls);
    lemma_complete_all(e, v.completions);
    assert forall|t: usize|
        v.executor.tasks.contains_key(t) && none_for(v.completions, t) implies #[trigger]
        v.drained_executor().tasks[t] == v.executor.tasks[t] by {
        lemma_complete_all_untouched(e, v.completions, t);
        assert(!spawned_table(v.executor.current_task_id, v.calls).contains_key(t));
    }
    assert forall|id: usize| #[trigger] v.executor.tasks.contains_key(id) implies v.drained_executor().tasks.contains_key(id)
        && v.drained_executor().tasks[id].args == v.executor.tasks[id].args by {
        assert(!spawned_table(v.executor.current_task_id, v.calls).contains_key(id));
        assert(e.tasks.contains_key(id));
    }
}

/// One operation keeps the module well formed and keeps its id; the task
/// counter never goes down, and no task is removed or has its call changed.
pub proof fn lemma_op_keeps(v: ModuleView, op: ModuleOp)
    requires
        v.wf(),
        v.allows(op),
    ensures
        v.apply(op).wf(),
        v.apply(op).module_id == v.module_id,
        v.executor.current_task_id <= v.apply(op).executor.current_task_id,
        forall|id: usize| #[trigger]
            v.executor.tasks.contains_key(id) ==> v.apply(op).executor.tasks.contains_key(id)
                && v.apply(op).executor.tasks[id].args == v.executor.tasks[id].args,
{
    match op {
        ModuleOp::SpawnTask(args) => {
            let e1 = v.executor.spawn(args);
            assert forall|i: int| 0 <= i < e1.ready.len() implies e1.tasks.contains_key(
                #[trigger] e1.ready[i],
            ) by {
                if i < e1.ready.len() - 1 {
                    assert(e1.ready[i] == v.executor.ready[i]);
                }
            }
        },
        ModuleOp::TakeRet(id) => {
            assert(v.executor.take_ret(id).tasks.dom() =~= v.executor.tasks.dom());
        },
        ModuleOp::Step => {
            lemma_drained(v);
            let e = v.drained_executor();
            if e.ready.len() > 0 {
                let p = e.pop_ready();
                assert forall|i: int| 0 <= i < p.ready.len() implies p.tasks.contains_key(
                    #[trigger] p.ready[i],
                ) by {
                    assert(p.ready[i] == e.ready[i + 1]);
                }
            }
        },
        _ => {},
    }
}

/// Over any sequence of allowed operations, a well-formed module stays well
/// formed (its tasks are exactly those with ids `1..=current_task_id`, each
/// under its own id), keeps its module id, never lowers its counter, and
/// never removes a task or changes the call a task was started for.
pub proof fn lemma_ops_keep(v: ModuleView, ops: Seq<ModuleOp>)
    requires
        v.wf(),
        v.allows_all(ops),
    ensures
        v.apply_all(ops).wf(),
        v.apply_all(ops).module_id == v.module_id,
        v.executor.current_task_id <= v.apply_all(ops).executor.current_task_id,
        forall|id: usize| #[trigger]
            v.executor.tasks.contains_key(id) ==> v.apply_all(ops).executor.tasks.contains_key(id)
                && v.apply_all(ops).executor.tasks[id].args == v.executor.tasks[id].args,
    decreases ops.len(),
{
    if ops.len() > 0 {
        lemma_op_keeps(v, ops[0]);
        lemma_ops_keep(v.apply(ops[0]), ops.drop_first());
    }
}

/// One operation moves a queued task one place closer to the front when it
/// is a turn of the event loop, and leaves its place as it is otherwise.
proof fn lemma_op_position(v: ModuleView, op: ModuleOp, k: int)
    requires
        v.wf(),
        v.allows(op),
        0 <= k < v.executor.ready.len(),
        op is Step ==> k >= 1,
    ensures
        op is Step ==> v.apply(op).executor.ready.len() > k - 1 && v.apply(op).executor.ready[k
            - 1] == v.executor.ready[k],
        !(op is Step) ==> v.apply(op).executor.ready.len() > k && v.apply(op).executor.ready[k]
            == v.executor.ready[k],
{
    if op is Step {
        lemma_drained(v);
    }
}

/// A task at place `k` of the ready queue is, after any allowed operations
/// with at most `k` turns among them, at place `k` less the number of turns.
pub proof fn lemma_ready_position(v: ModuleView, ops: Seq<ModuleOp>, k: int)
    requires
        v.wf(),
        v.allows_all(ops),
        0 <= k < v.executor.ready.len(),
        count_steps(ops) <= k,
    ensures
        v.apply_all(ops).executor.ready.len() > k - count_steps(ops),
        v.apply_all(ops).executor.ready[k - count_steps(ops)] == v.executor.ready[k],
    decreases ops.len(),
{
    if ops.len() > 0 {
        let op = ops[0];
        lemma_op_position(v, op, k);
        lemma_op_keeps(v, op);
        let k1 = if op is Step { k - 1 } else { k };
        lemma_ready_position(v.apply(op), ops.drop_first(), k1);
    }
}

/// Every queued task is handed out: the task at place `k` of the ready
/// queue is the one the turn after any `k` further turns hands out.
pub proof fn lemma_queued_task_is_handed_out(v: ModuleView, ops: Seq<ModuleOp>, k: int)
    requires
        v.wf(),
        v.allows_all(ops),
        0 <= k < v.executor.ready.len(),
        count_steps(ops) == k,
        v.apply_all(ops).can_step(),
    ensures
        v.apply_all(ops).stepped_task() is Some,
        v.apply_all(ops).stepped_task()->0.task_id == v.executor.ready[k],
{
    lemma_ready_position(v, ops, k);
    lemma_ops_keep(v, ops);
    let w = v.apply_all(ops);
    lemma_drained(w);
    let e = w.drained_executor();
    assert(e.ready[0] == w.executor.ready[0]);
}

/// Operations that neither take task `t`'s answer nor deliver an answer to
/// `t` leave task `t` as it is, and leave no answer to `t` queued.
pub proof fn lemma_task_untouched(v: ModuleView, ops: Seq<ModuleOp>, t: usize)
    requires
        v.wf(),
        v.allows_all(ops),
        v.executor.tasks.contains_key(t),
        none_for(v.completions, t),
        forall|i: int| 0 <= i < ops.len() ==> !touches(#[trigger] ops[i], t),
    ensures
        v.apply_all(ops).executor.tasks.contains_key(t),
        v.apply_all(ops).executor.tasks[t] == v.executor.tasks[t],
        none_for(v.apply_all(ops).completions, t),
    decreases ops.len(),
{
    if ops.len() > 0 {
        let op = ops[0];
        assert(!touches(ops[0], t));
        lemma_op_keeps(v, op);
        let w = v.apply(op);
        match op {
            ModuleOp::SpawnTask(args) => {},
            ModuleOp::Step => {
                lemma_drained(v);
            },
            ModuleOp::PushCq(ret) => {
                assert forall|i: int| 0 <= i < w.completions.len() implies #[trigger] w.completions[i].caller_task_id != t by {
                    if i < v.completions.len() {
                        assert(w.completions[i] == v.completions[i]);
                    }
                }
            },
            ModuleOp::PopCq => {
                if v.completions.len() > 0 {
                    assert forall|i: int| 0 <= i < w.completions.len() implies #[trigger] w.completions[i].caller_task_id != t by {
                        assert(w.completions[i] == v.completions[i + 1]);
                    }
                }
            },
            _ => {},
        }
        assert forall|i: int| 0 <= i < ops.drop_first().len() implies !touches(#[trigger] ops.drop_first()[i], t) by {
            assert(ops.drop_first()[i] == ops[i + 1]);
        }
        lemma_task_untouched(w, ops.drop_first(), t);
    }
}

/// An answer delivered to a module reaches the task it is addressed to, and
/// that task is handed out holding it: in the next turn when it is the only
/// ready task, and otherwise after as many further turns as there are ready
/// tasks ahead of it, whatever else happens meanwhile, as long as nothing
/// takes the task's answer or delivers another one to it.
pub proof fn lemma_delivered_answer_is_handed_out(
    v: ModuleView,
    ret: AsyncCallReturnValue,
    ops: Seq<ModuleOp>,
)
    requires
        v.wf(),
        (ModuleView { completions: v.completions.push(ret), ..v }).can_step(),
    ensures
        ({
            let d = ModuleView { completions: v.completions.push(ret), ..v };
            let n = d.drained_executor().ready.len();
            let w = d.after_step();
            &&& n >= 1
            &&& n == 1 ==> d.stepped_task() is Some && d.stepped_task()->0.task_id
                == ret.caller_task_id && d.stepped_task()->0.ret == Some(ret)
            &&& n >= 2 && w.allows_all(ops) && count_steps(ops) == n - 2 && (forall|i: int|
                0 <= i < ops.len() ==> !touches(#[trigger] ops[i], ret.caller_task_id))
                && w.apply_all(ops).can_step() ==> w.apply_all(ops).stepped_task() is Some
                && w.apply_all(ops).stepped_task()->0.task_id == ret.caller_task_id
                && w.apply_all(ops).stepped_task()->0.ret == Some(ret)
        }),
{
    let d = ModuleView { completions: v.completions.push(ret), ..v };
    let t = ret.caller_task_id;
    crate::manager::lemma_delivered_answer_reaches_task(v, ret);
    lemma_drained(d);
    let e = d.drained_executor();
    let n = e.ready.len();
    assert(n >= 1);
    let w = d.after_step();
    lemma_op_keeps(d, ModuleOp::Step);
    if n >= 2 && w.allows_all(ops) && count_steps(ops) == n - 2 && (forall|i: int|
        0 <= i < ops.len() ==> !touches(#[trigger] ops[i], t)) && w.apply_all(ops).can_step() {
        assert(w.executor.ready[n - 2] == t);
        assert(w.executor.tasks.contains_key(t));
        assert(none_for(w.completions, t));
        lemma_queued_task_is_handed_out(w, ops, n - 2);
        lemma_task_untouched(w, ops, t);
        let z = w.apply_all(ops);
        lemma_ops_keep(w, ops);
        lemma_drained(z);
    }
}

/// A task that is not queued can become queued again only through a turn of
/// the event loop that records an answer addressed to it.
pub proof fn lemma_requeued_only_by_answer(v: ModuleView, op: ModuleOp, t: usize)
    requires
        v.wf(),
        v.allows(op),
        v.executor.tasks.contains_key(t),
        !v.executor.ready.contains(t),
        v.apply(op).executor.ready.contains(t),
    ensures
        op is Step,
        exists|i: int| 0 <= i < v.completions.len() && #[trigger] v.completions[i].caller_task_id == t,
{
    match op {
        ModuleOp::SpawnTask(args) => {
            let r = v.apply(op).executor.ready;
            let j = choose|j: int| 0 <= j < r.len() && r[j] == t;
            if j < v.executor.ready.len() {
                assert(r[j] == v.executor.ready[j]);
            }
        },
        ModuleOp::Step => {
            lemma_drained(v);
            let e = v.drained_executor();
            let r = v.apply(op).executor.ready;
            let j = choose|j: int| 0 <= j < r.len() && r[j] == t;
            let j2 = if e.ready.len() > 0 { j + 1 } else { j };
            assert(e.ready[j2] == t);
            let a = v.executor.ready.len();
            let b = v.calls.len();
            if j2 < a {
                assert(e.ready[j2] == v.executor.ready[j2]);
            } else if j2 < a + b {
                assert(e.ready[j2] == ids_of(spawned_tasks(v.executor.current_task_id, v.calls))[j2 - a]);
            } else {
                assert(e.ready[j2] == answered_ids(v.completions)[j2 - a - b]);
                assert(v.completions[j2 - a - b].caller_task_id == t);
            }
        },
        _ => {},
    }
}

/// Whether the answers in `rets` are addressed to distinct tasks, each one
/// already known and not already queued as ready.
pub open spec fn fresh_answers(e: ExecutorView, rets: Seq<AsyncCallReturnValue>) -> bool {
    &&& e.knows_all(rets)
    &&& forall|i: int, j: int|
        0 <= i < j < rets.len() ==> #[trigger] rets[i].caller_task_id != #[trigger] rets[j].caller_task_id
    &&& forall|i: int| 0 <= i < rets.len() ==> !e.ready.contains(#[trigger] rets[i].caller_task_id)
}

/// No task stands twice in the ready queue: every operation keeps the queue
/// free of repeats, provided each turn records answers to distinct tasks
/// that are not already queued.
pub proof fn lemma_op_keeps_ready_distinct(v: ModuleView, op: ModuleOp)
    requires
        v.wf(),
        v.allows(op),
        v.executor.ready.no_duplicates(),
        op is Step ==> fresh_answers(v.executor, v.completions),
    ensures
        v.apply(op).executor.ready.no_duplicates(),
{
    match op {
        ModuleOp::SpawnTask(args) => {
            let r = v.apply(op).executor.ready;
            let n = v.executor.ready.len();
            assert forall|i: int, j: int| 0 <= i < r.len() && 0 <= j < r.len() && i != j implies r[i] != r[j] by {
                if i < n && j < n {
                    assert(r[i] == v.executor.ready[i] && r[j] == v.executor.ready[j]);
                } else if i < n {
                    assert(v.executor.tasks.contains_key(v.executor.ready[i]));
                } else {
                    assert(v.executor.tasks.contains_key(v.executor.ready[j]));
                }
            }
        },
        ModuleOp::Step => {
            lemma_drained(v);
            let e = v.drained_executor();
            let r = e.ready;
            let a = v.executor.ready.len();
            let b = v.calls.len();
            let c = v.executor.current_task_id;
            let s = ids_of(spawned_tasks(c, v.calls));
            let q = answered_ids(v.completions);
            assert forall|i: int, j: int| 0 <= i < r.len() && 0 <= j < r.len() && i != j implies r[i] != r[j] by {
                // where each place of the drained queue comes from
                if i < a {
                    assert(r[i] == v.executor.ready[i]);
                    assert(v.executor.tasks.contains_key(v.executor.ready[i]));
                } else if i < a + b {
                    assert(r[i] == s[i - a]);
                } else {
                    assert(r[i] == q[i - a - b]);
                    assert(v.executor.tasks.contains_key(v.completions[i - a - b].caller_task_id));
                }
                if j < a {
                    assert(r[j] == v.executor.ready[j]);
                    assert(v.executor.tasks.contains_key(v.executor.ready[j]));
                } else if j < a + b {
                    assert(r[j] == s[j - a]);
                } else {
                    assert(r[j] == q[j - a - b]);
                    assert(v.executor.tasks.contains_key(v.completions[j - a - b].caller_task_id));
                }
                if i >= a + b && j < a {
                    assert(!v.executor.ready.contains(v.completions[i - a - b].caller_task_id));
                    if r[i] == r[j] {
                        assert(v.executor.ready[j] == v.completions[i - a - b].caller_task_id);
                    }
                }
                if j >= a + b && i < a {
                    assert(!v.executor.ready.contains(v.completions[j - a - b].caller_task_id));
                    if r[i] == r[j] {
                        assert(v.executor.ready[i] == v.completions[j - a - b].caller_task_id);
                    }
                }
                if i >= a + b && j >= a + b {
                    if i < j {
                        assert(v.completions[i - a - b].caller_task_id != v.completions[j - a - b].caller_task_id);
                    } else {
                        assert(v.completions[j - a - b].caller_task_id != v.completions[i - a - b].caller_task_id);
                    }
                }
            }
            if r.len() > 0 {
                let p = r.drop_first();
                assert forall|i: int, j: int| 0 <= i < p.len() && 0 <= j < p.len() && i != j implies p[i] != p[j] by {
                    assert(p[i] == r[i + 1] && p[j] == r[j + 1]);
                }
            }
        },
        _ => {},
    }
}

/// Spawning adds exactly one task, under the id one above the counter, with
/// the given call and no answer, and queues it last; nothing else changes.
pub proof fn lemma_spawn_adds_one_task(e: ExecutorView, args: AsyncCallArguments)
    requires
        e.wf(),
        e.current_task_id < usize::MAX,
    ensures
        e.spawn(args).current_task_id == e.current_task_id + 1,
        e.spawn(args).ready == e.ready.push((e.current_task_id + 1) as usize),
        !e.tasks.contains_key((e.current_task_id + 1) as usize),
        e.spawn(args).tasks.dom() == e.tasks.dom().insert((e.current_task_id + 1) as usize),
        e.spawn(args).tasks[(e.current_task_id + 1) as usize] == (TaskControlBlock {
            task_id: (e.current_task_id + 1) as usize,
            args,
            ret: None,
        }),
        forall|id: usize| #[trigger]
            e.tasks.contains_key(id) ==> e.spawn(args).tasks[id] == e.tasks[id],
{
    assert(e.spawn(args).tasks.dom() =~= e.tasks.dom().insert((e.current_task_id + 1) as usize));
}

/// Taking a task's answer clears that task's answer and changes nothing
/// else: not the counter, not the ready queue, not the set of tasks, not the
/// task's id or call, and no other task.
pub proof fn lemma_take_ret_only_clears(e: ExecutorView, id: usize)
    requires
        e.tasks.contains_key(id),
    ensures
        e.take_ret(id).current_task_id == e.current_task_id,
        e.take_ret(id).ready == e.ready,
        e.take_ret(id).tasks.dom() == e.tasks.dom(),
        e.take_ret(id).tasks[id].ret is None,
        e.take_ret(id).tasks[id].task_id == e.tasks[id].task_id,
        e.take_ret(id).tasks[id].args == e.tasks[id].args,
        forall|k: usize| #[trigger]
            e.tasks.contains_key(k) && k != id ==> e.take_ret(id).tasks[k] == e.tasks[k],
{
    assert(e.take_ret(id).tasks.dom() =~= e.tasks.dom());
}

/// A turn can run exactly when the counter has room for every submitted call
/// and every delivered answer is addressed to an id from 1 up to the counter
/// plus the number of submitted calls, that is, to a task that exists or is
/// spawned in the same turn.
pub proof fn lemma_can_step_exactly(v: ModuleView)
    requires
        v.wf(),
    ensures
        v.can_step() <==> ({
            &&& v.executor.current_task_id + v.calls.len() <= usize::MAX
            &&& forall|i: int|
                0 <= i < v.completions.len() ==> 1 <= #[trigger] v.completions[i].caller_task_id
                    <= v.executor.current_task_id + v.calls.len()
        }),
{
    let c = v.executor.current_task_id;
    let n = v.calls.len();
    if c + n <= usize::MAX {
        lemma_spawn_all(v.executor, v.calls);
        lemma_spawn_all_wf(v.executor, v.calls);
        let s = v.executor.spawn_all(v.calls);
        assert forall|id: usize| #[trigger] s.tasks.contains_key(id) <==> 1 <= id <= c + n by {}
    }
}

/// One turn of the event loop, in terms of the module before it, with `c`
/// its counter and `n` its number of submitted calls. The tasks the turn
/// reports as spawned are the submitted calls in order, the i-th under id
/// `c + 1 + i` with no answer. The module's ready ids, then the ids
/// `c + 1 ..= c + n`, then the ids the delivered answers are addressed to,
/// in order, form the queue `q`. The turn hands out the task first in `q`, exactly as
/// the task table holds it, and leaves the rest of `q` queued; with `q`
/// empty it hands out nothing. The tasks are then those with ids
/// `1 ..= c + n`: each old task keeps its call, the i-th new task has the
/// i-th call, a task holds the last answer delivered to it, and a task with
/// no answer delivered keeps the answer it had (a new one has none).
pub proof fn lemma_turn(v: ModuleView)
    requires
        v.wf(),
        v.can_step(),
    ensures
        ({
            let c = v.executor.current_task_id;
            let n = v.calls.len();
            let q = v.executor.ready + Seq::new(n, |i: int| (c + 1 + i) as usize)
                + v.completions.map_values(|r: AsyncCallReturnValue| r.caller_task_id);
            let w = v.after_step();
            &&& w.module_id == v.module_id
            &&& w.calls.len() == 0
            &&& w.completions.len() == 0
            &&& w.executor.current_task_id == c + n
            &&& spawned_tasks(c, v.calls).len() == n
            &&& forall|i: int|
                0 <= i < n ==> #[trigger] spawned_tasks(c, v.calls)[i] == (TaskControlBlock {
                    task_id: (c + 1 + i) as usize,
                    args: v.calls[i],
                    ret: None,
                })
            &&& q.len() == 0 ==> v.stepped_task() is None && w.executor.ready.len() == 0
            &&& q.len() > 0 ==> {
                &&& v.stepped_task() is Some
                &&& v.stepped_task()->0.task_id == q[0]
                &&& v.stepped_task()->0 == w.executor.tasks[q[0]]
                &&& w.executor.ready == q.drop_first()
            }
            &&& forall|id: usize| #[trigger] w.executor.tasks.contains_key(id) <==> 1 <= id <= c + n
            &&& forall|id: usize|
                1 <= id <= c ==> #[trigger] w.executor.tasks[id].task_id == id
                    && w.executor.tasks[id].args == v.executor.tasks[id].args
            &&& forall|id: usize|
                c < id <= c + n ==> #[trigger] w.executor.tasks[id].task_id == id
                    && w.executor.tasks[id].args == v.calls[id - c - 1]
            &&& forall|id: usize|
                1 <= id <= c + n && none_for(v.completions, id) ==> #[trigger] w.executor.tasks[id].ret
                    == (if id <= c { v.executor.tasks[id].ret } else { None })
            &&& forall|i: int|
                0 <= i < v.completions.len() && (forall|j: int|
                    i < j < v.completions.len() ==> #[trigger] v.completions[j].caller_task_id
                        != v.completions[i].caller_task_id) ==> #[trigger] w.executor.tasks[v.completions[i].caller_task_id].ret
                    == Some(v.completions[i])
        }),
{
    let c = v.executor.current_task_id;
    let n = v.calls.len();
    let e0 = v.executor;
    let s = e0.spawn_all(v.calls);
    lemma_spawn_all(e0, v.calls);
    lemma_spawn_all_wf(e0, v.calls);
    lemma_complete_all(s, v.completions);
    lemma_drained(v);
    let d = v.drained_executor();
    let w = v.after_step();
    assert(w.executor.tasks == d.tasks);
    assert(ids_of(spawned_tasks(c, v.calls)) =~= Seq::new(n, |i: int| (c + 1 + i) as usize));
    assert(answered_ids(v.completions) =~= v.completions.map_values(
        |r: AsyncCallReturnValue| r.caller_task_id,
    ));
    assert forall|id: usize| 1 <= id <= c implies #[trigger] w.executor.tasks[id].task_id == id
        && w.executor.tasks[id].args == v.executor.tasks[id].args by {
        assert(e0.tasks.contains_key(id));
        assert(!spawned_table(c, v.calls).contains_key(id));
        assert(s.tasks.contains_key(id));
    }
    assert forall|id: usize| c < id <= c + n implies #[trigger] w.executor.tasks[id].task_id == id
        && w.executor.tasks[id].args == v.calls[id - c - 1] by {
        assert(spawned_table(c, v.calls).contains_key(id));
        assert(s.tasks.contains_key(id));
    }
    assert forall|id: usize|
        1 <= id <= c + n && none_for(v.completions, id) implies #[trigger] w.executor.tasks[id].ret
        == (if id <= c { v.executor.tasks[id].ret } else { None }) by {
        lemma_complete_all_untouched(s, v.completions, id);
        if id <= c {
            assert(e0.tasks.contains_key(id));
            assert(!spawned_table(c, v.calls).contains_key(id));
        } else {
            assert(spawned_table(c, v.calls).contains_key(id));
        }
    }
    assert forall|i: int|
        0 <= i < v.completions.len() && (forall|j: int|
            i < j < v.completions.len() ==> #[trigger] v.completions[j].caller_task_id
                != v.completions[i].caller_task_id) implies #[trigger] w.executor.tasks[v.completions[i].caller_task_id].ret
        == Some(v.completions[i]) by {
        lemma_complete_all_records(s, v.completions, i);
    }
}

} // verus!
