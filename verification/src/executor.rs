//! The executor of one module: its task table, its ready queue and the
//! counter from which task ids are drawn.
use crate::types::{AsyncCallArguments, AsyncCallReturnValue};
use std::collections::{HashMap, VecDeque};
use vstd::prelude::*;

verus! {

/// What the executor records of one task: its id, the call that started it,
/// and the answer to its own outstanding call, once one has arrived.
#[derive(Copy, Clone, Debug)]
pub struct TaskControlBlock {
    pub task_id: usize,
    pub args: AsyncCallArguments,
    pub ret: Option<AsyncCallReturnValue>,
}

pub struct Executor {
    pub current_task_id: usize,
    pub ready_queue: VecDeque<usize>,
    pub task_table: HashMap<usize, TaskControlBlock>,
}

/// The mathematical state of an executor.
pub struct ExecutorView {
    /// The id most recently handed out; 0 before the first task.
    pub current_task_id: usize,
    /// The ids of the tasks waiting to be polled, first to be polled first.
    pub ready: Seq<usize>,
    /// Every task ever spawned, by id.
    pub tasks: Map<usize, TaskControlBlock>,
}

impl View for Executor {
    type V = ExecutorView;

    open spec fn view(&self) -> ExecutorView {
        ExecutorView {
            current_task_id: self.current_task_id,
            ready: self.ready_queue@,
            tasks: self.task_table@,
        }
    }
}

/// The tasks that spawning `calls` in order creates, when the last id handed
/// out so far is `last_id`: the i-th call becomes task `last_id + 1 + i`.
pub open spec fn spawned_tasks(last_id: usize, calls: Seq<AsyncCallArguments>) -> Seq<TaskControlBlock> {
    Seq::new(
        calls.len(),
        |i: int| TaskControlBlock { task_id: (last_id + 1 + i) as usize, args: calls[i], ret: None },
    )
}

/// The ids of some tasks, in the same order.
pub open spec fn ids_of(tasks: Seq<TaskControlBlock>) -> Seq<usize> {
    tasks.map_values(|t: TaskControlBlock| t.task_id)
}

/// The tasks of `spawned_tasks(last_id, calls)`, keyed by id.
pub open spec fn spawned_table(last_id: usize, calls: Seq<AsyncCallArguments>) -> Map<usize, TaskControlBlock> {
    Map::new(
        |id: usize| last_id < id <= last_id + calls.len(),
        |id: usize| TaskControlBlock { task_id: id, args: calls[id - last_id - 1], ret: None },
    )
}

impl ExecutorView {
    /// The tasks are exactly those with ids `1..=current_task_id`, each filed
    /// under its own id, and every ready id names a task.
    pub open spec fn wf(self) -> bool {
        &&& forall|id: usize| #[trigger]
            self.tasks.contains_key(id) <==> 1 <= id <= self.current_task_id
        &&& forall|id: usize| #[trigger]
            self.tasks.contains_key(id) ==> self.tasks[id].task_id == id
        &&& forall|i: int| 0 <= i < self.ready.len() ==> self.tasks.contains_key(#[trigger] self.ready[i])
    }

    /// The executor of a new module.
    pub open spec fn initial() -> ExecutorView {
        ExecutorView { current_task_id: 0, ready: Seq::empty(), tasks: Map::empty() }
    }

    /// Whether `n` more tasks can be given ids.
    pub open spec fn has_room_for(self, n: int) -> bool {
        self.current_task_id + n <= usize::MAX
    }

    /// A new task for `args` under the next id, queued as ready.
    pub open spec fn spawn(self, args: AsyncCallArguments) -> ExecutorView {
        let id = (self.current_task_id + 1) as usize;
        ExecutorView {
            current_task_id: id,
            ready: self.ready.push(id),
            tasks: self.tasks.insert(id, TaskControlBlock { task_id: id, args, ret: None }),
        }
    }

    /// Spawning each call in order.
    pub open spec fn spawn_all(self, calls: Seq<AsyncCallArguments>) -> ExecutorView
        decreases calls.len(),
    {
        if calls.len() == 0 {
            self
        } else {
            self.spawn(calls[0]).spawn_all(calls.drop_first())
        }
    }

    /// Whether every answer in `rets` is addressed to a known task.
    pub open spec fn knows_all(self, rets: Seq<AsyncCallReturnValue>) -> bool {
        forall|i: int| 0 <= i < rets.len() ==> self.tasks.contains_key(#[trigger] rets[i].caller_task_id)
    }

    /// The answer `ret` recorded in the task it is addressed to, which is
    /// queued as ready again.
    pub open spec fn complete(self, ret: AsyncCallReturnValue) -> ExecutorView {
        let id = ret.caller_task_id;
        ExecutorView {
            ready: self.ready.push(id),
            tasks: self.tasks.insert(id, TaskControlBlock { ret: Some(ret), ..self.tasks[id] }),
            ..self
        }
    }

    /// Recording each answer in order.
    pub open spec fn complete_all(self, rets: Seq<AsyncCallReturnValue>) -> ExecutorView
        decreases rets.len(),
    {
        if rets.len() == 0 {
            self
        } else {
            self.complete(rets[0]).complete_all(rets.drop_first())
        }
    }

    /// The answer recorded for task `id` taken out of it.
    pub open spec fn take_ret(self, id: usize) -> ExecutorView {
        ExecutorView {
            tasks: self.tasks.insert(id, TaskControlBlock { ret: None, ..self.tasks[id] }),
            ..self
        }
    }

    /// The first ready task taken off the ready queue.
    pub open spec fn pop_ready(self) -> ExecutorView {
        ExecutorView { ready: self.ready.drop_first(), ..self }
    }
}

/// Spawning the calls one by one gives each call a fresh id, one above the
/// previous, appends those ids to the ready queue in the order of the calls,
/// and files each new task under its id with no answer yet.
pub proof fn lemma_spawn_all(e: ExecutorView, calls: Seq<AsyncCallArguments>)
    requires
        e.has_room_for(calls.len() as int),
    ensures
        e.spawn_all(calls).current_task_id == e.current_task_id + calls.len(),
        e.spawn_all(calls).ready == e.ready + ids_of(spawned_tasks(e.current_task_id, calls)),
        e.spawn_all(calls).tasks == e.tasks.union_prefer_right(
            spawned_table(e.current_task_id, calls),
        ),
    decreases calls.len(),
{
    if calls.len() == 0 {
        assert(ids_of(spawned_tasks(e.current_task_id, calls)) =~= Seq::<usize>::empty());
        assert(e.ready + Seq::<usize>::empty() =~= e.ready);
        assert(e.tasks.union_prefer_right(spawned_table(e.current_task_id, calls)) =~= e.tasks);
    } else {
        let e1 = e.spawn(calls[0]);
        let rest = calls.drop_first();
        lemma_spawn_all(e1, rest);
        let c = e.current_task_id;
        assert(e1.ready + ids_of(spawned_tasks(e1.current_task_id, rest)) =~= e.ready + ids_of(
            spawned_tasks(c, calls),
        ));
        assert(e1.tasks.union_prefer_right(spawned_table(e1.current_task_id, rest))
            =~= e.tasks.union_prefer_right(spawned_table(c, calls)));
    }
}

/// Taking a task's answer leaves it with none, so taking again yields
/// nothing and changes nothing more.
pub proof fn lemma_take_ret_twice(e: ExecutorView, id: usize)
    requires
        e.tasks.contains_key(id),
    ensures
        e.take_ret(id).tasks.contains_key(id),
        e.take_ret(id).tasks[id].ret is None,
        e.take_ret(id).take_ret(id) == e.take_ret(id),
{
    assert(e.take_ret(id).take_ret(id).tasks =~= e.take_ret(id).tasks);
}

/// Spawning keeps an executor well formed when the counter has room.
pub proof fn lemma_spawn_all_wf(e: ExecutorView, calls: Seq<AsyncCallArguments>)
    requires
        e.wf(),
        e.has_room_for(calls.len() as int),
    ensures
        e.spawn_all(calls).wf(),
    decreases calls.len(),
{
    if calls.len() > 0 {
        let e1 = e.spawn(calls[0]);
        assert(e1.wf());
        lemma_spawn_all_wf(e1, calls.drop_first());
    }
}

/// Recording answers to known tasks keeps an executor well formed, keeps
/// every task known, and queues each addressed task as ready, in the order of
/// the answers.
pub proof fn lemma_complete_all(e: ExecutorView, rets: Seq<AsyncCallReturnValue>)
    requires
        e.wf(),
        e.knows_all(rets),
    ensures
        e.complete_all(rets).wf(),
        e.complete_all(rets).current_task_id == e.current_task_id,
        e.complete_all(rets).tasks.dom() == e.tasks.dom(),
        e.complete_all(rets).ready == e.ready + rets.map_values(
            |r: AsyncCallReturnValue| r.caller_task_id,
        ),
        forall|id: usize| #[trigger]
            e.complete_all(rets).tasks.contains_key(id) ==> e.complete_all(rets).tasks[id].args
                == e.tasks[id].args,
    decreases rets.len(),
{
    if rets.len() == 0 {
        assert(e.ready + rets.map_values(|r: AsyncCallReturnValue| r.caller_task_id) =~= e.ready);
    } else {
        let e1 = e.complete(rets[0]);
        let rest = rets.drop_first();
        assert(e1.tasks.dom() =~= e.tasks.dom());
        assert(e1.knows_all(rest)) by {
            assert forall|i: int| 0 <= i < rest.len() implies e1.tasks.contains_key(
                #[trigger] rest[i].caller_task_id,
            ) by {
                assert(rest[i] == rets[i + 1]);
            }
        }
        assert(e1.wf());
        lemma_complete_all(e1, rest);
        assert(e1.ready + rest.map_values(|r: AsyncCallReturnValue| r.caller_task_id) =~= e.ready
            + rets.map_values(|r: AsyncCallReturnValue| r.caller_task_id));
    }
}

/// An answer is what its task holds after all answers are recorded, unless a
/// later answer is addressed to the same task.
pub proof fn lemma_complete_all_records(e: ExecutorView, rets: Seq<AsyncCallReturnValue>, i: int)
    requires
        e.knows_all(rets),
        0 <= i < rets.len(),
        forall|j: int| i < j < rets.len() ==> #[trigger] rets[j].caller_task_id != rets[i].caller_task_id,
    ensures
        e.complete_all(rets).tasks[rets[i].caller_task_id].ret == Some(rets[i]),
    decreases rets.len(),
{
    let e1 = e.complete(rets[0]);
    let rest = rets.drop_first();
    assert(e1.knows_all(rest)) by {
        assert forall|k: int| 0 <= k < rest.len() implies e1.tasks.contains_key(
            #[trigger] rest[k].caller_task_id,
        ) by {
            assert(rest[k] == rets[k + 1]);
        }
    }
    if i == 0 {
        lemma_complete_all_untouched(e1, rest, rets[0].caller_task_id);
    } else {
        assert forall|j: int| i - 1 < j < rest.len() implies #[trigger] rest[j].caller_task_id
            != rest[i - 1].caller_task_id by {
            assert(rest[j] == rets[j + 1]);
        }
        lemma_complete_all_records(e1, rest, i - 1);
    }
}

/// Recording answers none of which is addressed to task `id` leaves that task as it is.
pub proof fn lemma_complete_all_untouched(e: ExecutorView, rets: Seq<AsyncCallReturnValue>, id: usize)
    requires
        forall|j: int| 0 <= j < rets.len() ==> #[trigger] rets[j].caller_task_id != id,
    ensures
        e.complete_all(rets).tasks.contains_key(id) == e.tasks.contains_key(id),
        e.complete_all(rets).tasks[id] == e.tasks[id],
    decreases rets.len(),
{
    if rets.len() > 0 {
        let rest = rets.drop_first();
        assert forall|j: int| 0 <= j < rest.len() implies #[trigger] rest[j].caller_task_id != id by {
            assert(rest[j] == rets[j + 1]);
        }
        lemma_complete_all_untouched(e.complete(rets[0]), rest, id);
    }
}

} // verus!
