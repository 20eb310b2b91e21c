//! A module: an executor together with its submission queue (calls made to
//! the module) and its completion queue (answers to the calls its tasks made).
use crate::executor::{
    lemma_complete_all, lemma_spawn_all, lemma_spawn_all_wf, spawned_tasks, Executor,
    ExecutorView, TaskControlBlock,
};
use crate::queue::{
    call_queue_len, new_call_queue, new_return_queue, pop_call, pop_return, push_call,
    push_return, queued_calls, queued_returns,
};
use crate::types::{AsyncCallArguments, AsyncCallReturnValue};
use crossbeam::queue::SegQueue;
use std::collections::{HashMap, VecDeque};
use vstd::prelude::*;

verus! {

broadcast use vstd::std_specs::hash::group_hash_axioms;

/// The mathematical state of a module.
pub struct ModuleView {
    pub module_id: usize,
    pub executor: ExecutorView,
    /// The calls submitted to the module and not yet turned into tasks, oldest first.
    pub calls: Seq<AsyncCallArguments>,
    /// The answers delivered to the module and not yet recorded, oldest first.
    pub completions: Seq<AsyncCallReturnValue>,
}

impl ModuleView {
    pub open spec fn wf(self) -> bool {
        self.executor.wf()
    }

    /// The executor once every submitted call is spawned and every delivered
    /// answer recorded, in that order.
    pub open spec fn drained_executor(self) -> ExecutorView {
        self.executor.spawn_all(self.calls).complete_all(self.completions)
    }

    /// Whether one turn of the event loop can run: the task counter has room
    /// for every submitted call, and every delivered answer is addressed to a
    /// task that exists once those calls are spawned.
    pub open spec fn can_step(self) -> bool {
        &&& self.executor.has_room_for(self.calls.len() as int)
        &&& self.executor.spawn_all(self.calls).knows_all(self.completions)
    }

    /// The module after one turn of the event loop: queues drained, and the
    /// first ready task, if any, taken off the ready queue.
    pub open spec fn after_step(self) -> ModuleView {
        let e = self.drained_executor();
        ModuleView {
            module_id: self.module_id,
            executor: if e.ready.len() == 0 { e } else { e.pop_ready() },
            calls: Seq::empty(),
            completions: Seq::empty(),
        }
    }

    /// The task that one turn of the event loop hands out to be polled.
    pub open spec fn stepped_task(self) -> Option<TaskControlBlock> {
        let e = self.drained_executor();
        if e.ready.len() == 0 {
            None
        } else {
            Some(e.tasks[e.ready[0]])
        }
    }
}

/// An operation on a module, for stating what holds over any sequence of them.
pub enum ModuleOp {
    SpawnTask(AsyncCallArguments),
    TakeRet(usize),
    PushSq(AsyncCallArguments),
    PopSq,
    PushCq(AsyncCallReturnValue),
    PopCq,
    Step,
}

impl ModuleView {
    /// Whether `op` may be applied: the counter has room for a spawn, a
    /// taken answer's task exists, and a turn of the event loop can run.
    pub open spec fn allows(self, op: ModuleOp) -> bool {
        match op {
            ModuleOp::SpawnTask(_) => self.executor.current_task_id < usize::MAX,
            ModuleOp::TakeRet(id) => self.executor.tasks.contains_key(id),
            ModuleOp::Step => self.can_step(),
            _ => true,
        }
    }

    /// The module after `op`, as the operation's own contract states it.
    pub open spec fn apply(self, op: ModuleOp) -> ModuleView {
        match op {
            ModuleOp::SpawnTask(args) => ModuleView { executor: self.executor.spawn(args), ..self },
            ModuleOp::TakeRet(id) => ModuleView { executor: self.executor.take_ret(id), ..self },
            ModuleOp::PushSq(args) => ModuleView { calls: self.calls.push(args), ..self },
            ModuleOp::PopSq => if self.calls.len() > 0 {
                ModuleView { calls: self.calls.drop_first(), ..self }
            } else {
                self
            },
            ModuleOp::PushCq(ret) => ModuleView { completions: self.completions.push(ret), ..self },
            ModuleOp::PopCq => if self.completions.len() > 0 {
                ModuleView { completions: self.completions.drop_first(), ..self }
            } else {
                self
            },
            ModuleOp::Step => self.after_step(),
        }
    }

    /// Whether every operation of `ops` is allowed when its turn comes.
    pub open spec fn allows_all(self, ops: Seq<ModuleOp>) -> bool
        decreases ops.len(),
    {
        ops.len() == 0 || (self.allows(ops[0]) && self.apply(ops[0]).allows_all(ops.drop_first()))
    }

    /// The module after the operations of `ops`, in order.
    pub open spec fn apply_all(self, ops: Seq<ModuleOp>) -> ModuleView
        decreases ops.len(),
    {
        if ops.len() == 0 {
            self
        } else {
            self.apply(ops[0]).apply_all(ops.drop_first())
        }
    }
}

/// What one turn of a module's event loop asks of the caller: start a future
/// for each new task, then poll the given task.
pub struct EventLoopStep {
    /// The tasks spawned in this turn, in the order of their calls.
    pub spawned: Vec<TaskControlBlock>,
    /// The task to poll now, if any task is ready.
    pub polled: Option<TaskControlBlock>,
}

/// The interface through which modules are driven.
pub trait AsyncModule {
    spec fn module_view(&self) -> ModuleView;

    fn module_id(&self) -> (id: usize)
        ensures
            id == self.module_view().module_id,
    ;

    /// Takes the answer recorded for task `task_id`, leaving none behind.
    fn task_async_call_ret(&mut self, task_id: usize) -> (r: Option<AsyncCallReturnValue>)
        requires
            old(self).module_view().executor.tasks.contains_key(task_id),
        ensures
            r == old(self).module_view().executor.tasks[task_id].ret,
            final(self).module_view() == (ModuleView {
                executor: old(self).module_view().executor.take_ret(task_id),
                ..old(self).module_view()
            }),
            final(self).module_view() == old(self).module_view().apply(ModuleOp::TakeRet(task_id)),
            old(self).module_view().wf() ==> final(self).module_view().wf(),
    ;

    /// Submits a call to this module.
    fn push_sq(&mut self, args: AsyncCallArguments)
        ensures
            final(self).module_view() == (ModuleView {
                calls: old(self).module_view().calls.push(args),
                ..old(self).module_view()
            }),
            final(self).module_view() == old(self).module_view().apply(ModuleOp::PushSq(args)),
    ;

    /// Takes the oldest submitted call, if any.
    fn pop_sq(&mut self) -> (r: Option<AsyncCallArguments>)
        ensures
            final(self).module_view() == old(self).module_view().apply(ModuleOp::PopSq),
            match r {
                Some(a) => {
                    &&& old(self).module_view().calls.len() > 0
                    &&& a == old(self).module_view().calls[0]
                    &&& final(self).module_view() == (ModuleView {
                        calls: old(self).module_view().calls.drop_first(),
                        ..old(self).module_view()
                    })
                },
                None => {
                    &&& old(self).module_view().calls.len() == 0
                    &&& final(self).module_view() == old(self).module_view()
                },
            },
    ;

    /// Delivers an answer to this module.
    fn push_cq(&mut self, ret: AsyncCallReturnValue)
        ensures
            final(self).module_view() == (ModuleView {
                completions: old(self).module_view().completions.push(ret),
                ..old(self).module_view()
            }),
            final(self).module_view() == old(self).module_view().apply(ModuleOp::PushCq(ret)),
    ;

    /// Takes the oldest delivered answer, if any.
    fn pop_cq(&mut self) -> (r: Option<AsyncCallReturnValue>)
        ensures
            final(self).module_view() == old(self).module_view().apply(ModuleOp::PopCq),
            match r {
                Some(a) => {
                    &&& old(self).module_view().completions.len() > 0
                    &&& a == old(self).module_view().completions[0]
                    &&& final(self).module_view() == (ModuleView {
                        completions: old(self).module_view().completions.drop_first(),
                        ..old(self).module_view()
                    })
                },
                None => {
                    &&& old(self).module_view().completions.len() == 0
                    &&& final(self).module_view() == old(self).module_view()
                },
            },
    ;

    /// One turn of the event loop: spawn a task for every submitted call,
    /// record every delivered answer in its task and queue that task again,
    /// then hand out the first ready task to be polled.
    fn event_loop_step(&mut self) -> (step: EventLoopStep)
        requires
            old(self).module_view().wf(),
            old(self).module_view().can_step(),
        ensures
            final(self).module_view().wf(),
            final(self).module_view() == old(self).module_view().after_step(),
            final(self).module_view() == old(self).module_view().apply(ModuleOp::Step),
            step.spawned@ == spawned_tasks(
                old(self).module_view().executor.current_task_id,
                old(self).module_view().calls,
            ),
            step.polled == old(self).module_view().stepped_task(),
    ;
}

pub struct AsyncModuleImpl {
    pub module_id: usize,
    pub executor: Executor,
    pub sq: SegQueue<AsyncCallArguments>,
    pub cq: SegQueue<AsyncCallReturnValue>,
}

impl View for AsyncModuleImpl {
    type V = ModuleView;

    open spec fn view(&self) -> ModuleView {
        ModuleView {
            module_id: self.module_id,
            executor: self.executor@,
            calls: queued_calls(self.sq),
            completions: queued_returns(self.cq),
        }
    }
}

impl AsyncModule for AsyncModuleImpl {
    open spec fn module_view(&self) -> ModuleView {
        self@
    }

    fn module_id(&self) -> (id: usize) {
        self.module_id
    }

    fn push_sq(&mut self, args: AsyncCallArguments) {
        push_call(&mut self.sq, args);
    }

    fn pop_sq(&mut self) -> (r: Option<AsyncCallArguments>) {
        pop_call(&mut self.sq)
    }

    fn push_cq(&mut self, ret: AsyncCallReturnValue) {
        push_return(&mut self.cq, ret);
    }

    fn pop_cq(&mut self) -> (r: Option<AsyncCallReturnValue>) {
        pop_return(&mut self.cq)
    }

    fn task_async_call_ret(&mut self, task_id: usize) -> (r: Option<AsyncCallReturnValue>) {
        let tcb = *self.executor.task_table.get(&task_id).unwrap();
        let ret = tcb.ret;
        self.executor.task_table.insert(task_id, TaskControlBlock { ret: None, ..tcb });
        proof {
            assert(self.executor.task_table@ =~= old(self).executor@.take_ret(task_id).tasks);
        }
        ret
    }

    fn event_loop_step(&mut self) -> (step: EventLoopStep) {
        let spawned = self.spawn_incoming();
        proof {
            lemma_spawn_all_wf(old(self)@.executor, old(self)@.calls);
        }
        self.record_completions();
        proof {
            lemma_complete_all(
                old(self)@.executor.spawn_all(old(self)@.calls),
                old(self)@.completions,
            );
        }
        let polled = match self.executor.ready_queue.pop_front() {
            Some(task_id) => Some(*self.executor.task_table.get(&task_id).unwrap()),
            None => None,
        };
        proof {
            if polled is Some {
                assert(self.executor.ready_queue@ =~= old(self)@.drained_executor().ready.drop_first());
            }
        }
        EventLoopStep { spawned, polled }
    }
}

impl AsyncModuleImpl {
    /// A module with no calls, no answers and no tasks.
    pub fn new(module_id: usize) -> (m: Self)
        ensures
            m@ == (ModuleView {
                module_id,
                executor: ExecutorView::initial(),
                calls: Seq::empty(),
                completions: Seq::empty(),
            }),
            m@.wf(),
    {
        let m = AsyncModuleImpl {
            module_id,
            executor: Executor {
                current_task_id: 0,
                ready_queue: VecDeque::new(),
                task_table: HashMap::new(),
            },
            sq: new_call_queue(),
            cq: new_return_queue(),
        };
        proof {
            assert(m.executor.task_table@ =~= Map::<usize, TaskControlBlock>::empty());
        }
        m
    }

    /// Turns the call `args` into a new task under the next id and queues it
    /// as ready; the id is returned.
    pub fn spawn_task(&mut self, args: AsyncCallArguments) -> (task_id: usize)
        requires
            old(self).executor.current_task_id < usize::MAX,
        ensures
            task_id == old(self).executor.current_task_id + 1,
            !old(self)@.executor.tasks.contains_key(task_id) <== old(self)@.wf(),
            final(self)@ == (ModuleView { executor: old(self)@.executor.spawn(args), ..old(self)@ }),
            final(self)@ == old(self)@.apply(ModuleOp::SpawnTask(args)),
            old(self)@.wf() ==> final(self)@.wf(),
    {
        self.executor.current_task_id = self.executor.current_task_id + 1;
        let current_task_id = self.executor.current_task_id;
        let tcb = TaskControlBlock { task_id: current_task_id, args, ret: None };
        self.executor.ready_queue.push_back(current_task_id);
        self.executor.task_table.insert(current_task_id, tcb);
        proof {
            let e = self@.executor;
            if old(self)@.wf() {
                assert forall|i: int| 0 <= i < e.ready.len() implies e.tasks.contains_key(
                    #[trigger] e.ready[i],
                ) by {
                    if i < e.ready.len() - 1 {
                        assert(e.ready[i] == old(self)@.executor.ready[i]);
                    }
                }
            }
        }
        current_task_id
    }

    /// Spawns a task for every submitted call, oldest first, and returns the
    /// new tasks in that order.
    fn spawn_incoming(&mut self) -> (spawned: Vec<TaskControlBlock>)
        requires
            old(self)@.wf(),
            old(self)@.executor.has_room_for(old(self)@.calls.len() as int),
        ensures
            final(self)@ == (ModuleView {
                executor: old(self)@.executor.spawn_all(old(self)@.calls),
                calls: Seq::empty(),
                ..old(self)@
            }),
            spawned@ == spawned_tasks(old(self)@.executor.current_task_id, old(self)@.calls),
    {
        let ghost all_calls = old(self)@.calls;
        let ghost first = old(self)@.executor.current_task_id;
        let mut spawned: Vec<TaskControlBlock> = Vec::new();
        proof {
            lemma_spawn_all(old(self)@.executor, all_calls);
        }
        loop
            invariant
                self@.module_id == old(self)@.module_id,
                self@.completions == old(self)@.completions,
                self@.executor.spawn_all(self@.calls) == old(self)@.executor.spawn_all(all_calls),
                self@.executor.has_room_for(self@.calls.len() as int),
                self@.executor.current_task_id == first + spawned@.len(),
                self@.calls == all_calls.skip(spawned@.len() as int),
                spawned@.len() <= all_calls.len(),
                spawned@ == spawned_tasks(first, all_calls).take(spawned@.len() as int),
            ensures
                self@.calls.len() == 0,
                self@.module_id == old(self)@.module_id,
                self@.completions == old(self)@.completions,
                self@.executor == old(self)@.executor.spawn_all(all_calls),
                spawned@ == spawned_tasks(first, all_calls),
            decreases self@.calls.len(),
        {
            let ghost before = self@;
            match self.pop_sq() {
                Some(args) => {
                    let task_id = self.spawn_task(args);
                    let ghost k = spawned@.len() as int;
                    spawned.push(TaskControlBlock { task_id, args, ret: None });
                    proof {
                        assert(before.calls.drop_first() =~= all_calls.skip(k + 1));
                        assert(spawned@ =~= spawned_tasks(first, all_calls).take(k + 1));
                    }
                },
                None => {
                    proof {
                        assert(spawned@.len() == all_calls.len());
                        assert(spawned@ =~= spawned_tasks(first, all_calls));
                    }
                    break;
                },
            }
        }
        proof {
            assert(self@.calls =~= Seq::<AsyncCallArguments>::empty());
        }
        spawned
    }

    /// Records every delivered answer, oldest first, in the task it is
    /// addressed to, and queues that task as ready again.
    fn record_completions(&mut self)
        requires
            old(self)@.executor.wf(),
            old(self)@.executor.knows_all(old(self)@.completions),
        ensures
            final(self)@ == (ModuleView {
                executor: old(self)@.executor.complete_all(old(self)@.completions),
                completions: Seq::empty(),
                ..old(self)@
            }),
    {
        let ghost target = old(self)@.executor.complete_all(old(self)@.completions);
        loop
            invariant
                self@.module_id == old(self)@.module_id,
                self@.calls == old(self)@.calls,
                self@.executor.wf(),
                self@.executor.knows_all(self@.completions),
                self@.executor.complete_all(self@.completions) == target,
            ensures
                self@.completions.len() == 0,
                self@.module_id == old(self)@.module_id,
                self@.calls == old(self)@.calls,
                self@.executor == target,
            decreases self@.completions.len(),
        {
            let ghost before = self@;
            match self.pop_cq() {
                Some(ret) => {
                    proof {
                        lemma_complete_all(before.executor, before.completions);
                        assert(before.executor.tasks.contains_key(before.completions[0].caller_task_id));
                    }
                    let id = ret.caller_task_id;
                    let tcb = *self.executor.task_table.get(&id).unwrap();
                    self.executor.task_table.insert(id, TaskControlBlock { ret: Some(ret), ..tcb });
                    self.executor.ready_queue.push_back(id);
                    proof {
                        let rest = before.completions.drop_first();
                        assert(self@.executor == before.executor.complete(ret));
                        assert(self@.executor.tasks.dom() =~= before.executor.tasks.dom());
                        assert forall|i: int| 0 <= i < rest.len() implies self@.executor.tasks.contains_key(
                            #[trigger] rest[i].caller_task_id,
                        ) by {
                            assert(rest[i] == before.completions[i + 1]);
                        }
                    }
                },
                None => {
                    break;
                },
            }
        }
        proof {
            assert(self@.completions =~= Seq::<AsyncCallReturnValue>::empty());
        }
    }

    /// Whether `event_loop_step` can run on this module now (see
    /// `ModuleView::can_step`); the module is left as it was.
    pub fn can_step(&mut self) -> (b: bool)
        ensures
            b == old(self)@.can_step(),
            final(self)@ == old(self)@,
    {
        let n = call_queue_len(&self.sq);
        let last = self.executor.current_task_id;
        if n > usize::MAX - last {
            return false;
        }
        proof {
            lemma_spawn_all(self@.executor, self@.calls);
        }
        let ghost known = self@.executor.spawn_all(self@.calls);
        let ghost all = self@.completions;
        let mut taken: Vec<AsyncCallReturnValue> = Vec::new();
        let mut ok = true;
        loop
            invariant
                self@.module_id == old(self)@.module_id,
                self@.calls == old(self)@.calls,
                self@.executor == old(self)@.executor,
                known == self@.executor.spawn_all(self@.calls),
                n == self@.calls.len(),
                last == self@.executor.current_task_id,
                last + n <= usize::MAX,
                known.tasks == self@.executor.tasks.union_prefer_right(
                    crate::executor::spawned_table(last, self@.calls),
                ),
                all == old(self)@.completions,
                taken@ + self@.completions == all,
                ok == known.knows_all(taken@),
            ensures
                self@.completions.len() == 0,
                self@.module_id == old(self)@.module_id,
                self@.calls == old(self)@.calls,
                self@.executor == old(self)@.executor,
                taken@ == all,
                ok == known.knows_all(all),
            decreases self@.completions.len(),
        {
            let ghost before = self@;
            match pop_return(&mut self.cq) {
                Some(ret) => {
                    let id = ret.caller_task_id;
                    let here = self.executor.task_table.contains_key(&id) || (last < id && id - last
                        <= n);
                    proof {
                        assert(here == known.tasks.contains_key(id));
                        let t2 = taken@.push(ret);
                        if ok && here {
                            assert forall|i: int| 0 <= i < t2.len() implies known.tasks.contains_key(
                                #[trigger] t2[i].caller_task_id,
                            ) by {
                                if i < taken@.len() {
                                    assert(t2[i] == taken@[i]);
                                }
                            }
                        }
                        if !ok {
                            let w = choose|i: int|
                                0 <= i < taken@.len() && !known.tasks.contains_key(
                                    #[trigger] taken@[i].caller_task_id,
                                );
                            assert(t2[w] == taken@[w]);
                        }
                        if !here {
                            assert(t2[taken@.len() as int] == ret);
                        }
                        assert(t2 + before.completions.drop_first() =~= taken@ + before.completions);
                    }
                    ok = ok && here;
                    taken.push(ret);
                },
                None => {
                    proof {
                        assert(taken@ + self@.completions =~= taken@);
                    }
                    break;
                },
            }
        }
        let mut i: usize = 0;
        while i < taken.len()
            invariant
                0 <= i <= taken@.len(),
                taken@ == all,
                self@.module_id == old(self)@.module_id,
                self@.calls == old(self)@.calls,
                self@.executor == old(self)@.executor,
                self@.completions == all.take(i as int),
            decreases taken@.len() - i,
        {
            push_return(&mut self.cq, taken[i]);
            proof {
                assert(all.take(i as int).push(all[i as int]) =~= all.take(i + 1));
            }
            i = i + 1;
        }
        proof {
            assert(all.take(all.len() as int) =~= all);
        }
        ok
    }
}

} // verus!
