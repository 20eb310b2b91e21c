//! The table of loaded modules, through which modules call one another.
use crate::executor::{
    lemma_complete_all, lemma_complete_all_records, spawned_tasks, TaskControlBlock,
};
use crate::module::{AsyncModule, AsyncModuleImpl, EventLoopStep, ModuleView};
use crate::types::{AsyncCallArguments, AsyncCallReturnValue};
use std::collections::HashMap;
use vstd::prelude::*;

verus! {

broadcast use vstd::std_specs::hash::group_hash_axioms;

pub struct AsyncModuleManager {
    module_table: HashMap<usize, AsyncModuleImpl>,
}

impl View for AsyncModuleManager {
    type V = Map<usize, ModuleView>;

    /// The loaded modules, by the id they were loaded under.
    closed spec fn view(&self) -> Map<usize, ModuleView> {
        Map::new(
            |id: usize| self.module_table@.contains_key(id),
            |id: usize| self.module_table@[id]@,
        )
    }
}

impl AsyncModuleManager {
    /// Every loaded module is well formed.
    pub open spec fn all_wf(&self) -> bool {
        forall|id: usize| #[trigger] self@.contains_key(id) ==> self@[id].wf()
    }

    /// A manager with no module loaded.
    pub fn new() -> (m: Self)
        ensures
            m@ == Map::<usize, ModuleView>::empty(),
            m.all_wf(),
    {
        let m = AsyncModuleManager { module_table: HashMap::new() };
        proof {
            assert(m@ =~= Map::<usize, ModuleView>::empty());
        }
        m
    }

    /// Whether a module is loaded under `module_id`.
    pub fn is_loaded(&self, module_id: usize) -> (b: bool)
        ensures
            b == self@.contains_key(module_id),
    {
        self.module_table.contains_key(&module_id)
    }

    /// The module loaded under `module_id`.
    pub fn get_module(&self, module_id: usize) -> (m: &AsyncModuleImpl)
        requires
            self@.contains_key(module_id),
        ensures
            m@ == self@[module_id],
    {
        self.module_table.get(&module_id).unwrap()
    }

    /// Loads `module` under `module_id`, replacing any module loaded there.
    pub fn load_module(&mut self, module_id: usize, module: AsyncModuleImpl)
        ensures
            final(self)@ == old(self)@.insert(module_id, module@),
            old(self).all_wf() && module@.wf() ==> final(self).all_wf(),
    {
        self.module_table.insert(module_id, module);
        proof {
            assert(self@ =~= old(self)@.insert(module_id, module@));
        }
    }

    /// Takes the module loaded under `module_id` out of the table.
    fn take_module(&mut self, module_id: usize) -> (m: AsyncModuleImpl)
        requires
            old(self)@.contains_key(module_id),
        ensures
            m@ == old(self)@[module_id],
            final(self)@ == old(self)@.remove(module_id),
    {
        let m = self.module_table.remove(&module_id).unwrap();
        proof {
            assert(self@ =~= old(self)@.remove(module_id));
        }
        m
    }

    /// Whether `poll_async_call(args)` can run now: the calling module is
    /// loaded and has the calling task, and, unless that task holds an
    /// answer, the callee module is loaded.
    pub fn can_poll_async_call(&self, args: AsyncCallArguments) -> (b: bool)
        ensures
            b == ({
                &&& self@.contains_key(args.caller_module_id)
                &&& self@[args.caller_module_id].executor.tasks.contains_key(args.caller_task_id)
                &&& self@[args.caller_module_id].executor.tasks[args.caller_task_id].ret is None
                    ==> self@.contains_key(args.callee_module_id)
            }),
    {
        match self.module_table.get(&args.caller_module_id) {
            None => false,
            Some(caller) => match caller.executor.task_table.get(&args.caller_task_id) {
                None => false,
                Some(tcb) => tcb.ret.is_some() || self.module_table.contains_key(
                    &args.callee_module_id,
                ),
            },
        }
    }

    /// One poll of the call `args`: when the calling task holds an answer,
    /// the answer is taken out of it and returned (the call is ready);
    /// otherwise the call is submitted to the callee module and `None` is
    /// returned (the call is pending).
    pub fn poll_async_call(&mut self, args: AsyncCallArguments) -> (r: Option<AsyncCallReturnValue>)
        requires
            old(self)@.contains_key(args.caller_module_id),
            old(self)@[args.caller_module_id].executor.tasks.contains_key(args.caller_task_id),
            old(self)@[args.caller_module_id].executor.tasks[args.caller_task_id].ret is None
                ==> old(self)@.contains_key(args.callee_module_id),
        ensures
            r == old(self)@[args.caller_module_id].executor.tasks[args.caller_task_id].ret,
            r is Some ==> final(self)@ == old(self)@.insert(
                args.caller_module_id,
                ModuleView {
                    executor: old(self)@[args.caller_module_id].executor.take_ret(
                        args.caller_task_id,
                    ),
                    ..old(self)@[args.caller_module_id]
                },
            ),
            r is None ==> final(self)@ == old(self)@.insert(
                args.callee_module_id,
                ModuleView {
                    calls: old(self)@[args.callee_module_id].calls.push(args),
                    ..old(self)@[args.callee_module_id]
                },
            ),
            old(self).all_wf() ==> final(self).all_wf(),
    {
        let mut caller = self.take_module(args.caller_module_id);
        let ret = caller.task_async_call_ret(args.caller_task_id);
        self.load_module(args.caller_module_id, caller);
        match ret {
            Some(ret) => Some(ret),
            None => {
                proof {
                    let v = old(self)@[args.caller_module_id];
                    assert(v.executor.take_ret(args.caller_task_id).tasks =~= v.executor.tasks);
                    assert(self@ =~= old(self)@);
                }
                let mut callee = self.take_module(args.callee_module_id);
                callee.push_sq(args);
                self.load_module(args.callee_module_id, callee);
                proof {
                    assert(self@ =~= old(self)@.insert(
                        args.callee_module_id,
                        ModuleView {
                            calls: old(self)@[args.callee_module_id].calls.push(args),
                            ..old(self)@[args.callee_module_id]
                        },
                    ));
                }
                None
            },
        }
    }

    /// A task has finished with `ret`: the answer is delivered to the
    /// completion queue of the module that made the call the task was
    /// started for.
    pub fn finish_task(&mut self, task: TaskControlBlock, ret: AsyncCallReturnValue)
        requires
            old(self)@.contains_key(task.args.caller_module_id),
        ensures
            final(self)@ == old(self)@.insert(
                task.args.caller_module_id,
                ModuleView {
                    completions: old(self)@[task.args.caller_module_id].completions.push(ret),
                    ..old(self)@[task.args.caller_module_id]
                },
            ),
            old(self).all_wf() ==> final(self).all_wf(),
    {
        let caller_module_id = task.args.caller_module_id;
        let mut caller = self.take_module(caller_module_id);
        caller.push_cq(ret);
        self.load_module(caller_module_id, caller);
        proof {
            assert(self@ =~= old(self)@.insert(
                caller_module_id,
                ModuleView {
                    completions: old(self)@[caller_module_id].completions.push(ret),
                    ..old(self)@[caller_module_id]
                },
            ));
        }
    }

    /// Whether one turn of the event loop can run on the module loaded under
    /// `module_id`; nothing changes.
    pub fn can_step(&mut self, module_id: usize) -> (b: bool)
        requires
            old(self)@.contains_key(module_id),
        ensures
            b == old(self)@[module_id].can_step(),
            final(self)@ == old(self)@,
    {
        let mut module = self.take_module(module_id);
        let b = module.can_step();
        self.load_module(module_id, module);
        proof {
            assert(self@ =~= old(self)@);
        }
        b
    }

    /// One turn of the event loop of the module loaded under `module_id`.
    pub fn module_step(&mut self, module_id: usize) -> (step: EventLoopStep)
        requires
            old(self)@.contains_key(module_id),
            old(self)@[module_id].wf(),
            old(self)@[module_id].can_step(),
        ensures
            final(self)@ == old(self)@.insert(module_id, old(self)@[module_id].after_step()),
            final(self)@[module_id].wf(),
            old(self).all_wf() ==> final(self).all_wf(),
            step.spawned@ == spawned_tasks(
                old(self)@[module_id].executor.current_task_id,
                old(self)@[module_id].calls,
            ),
            step.polled == old(self)@[module_id].stepped_task(),
    {
        let mut module = self.take_module(module_id);
        let step = module.event_loop_step();
        self.load_module(module_id, module);
        step
    }
}

/// An answer delivered to a module is, after the module's next turn of the
/// event loop, the answer held by the task it is addressed to, and that task
/// is queued to be polled again; the next poll of that task's call returns it.
pub proof fn lemma_delivered_answer_reaches_task(v: ModuleView, ret: AsyncCallReturnValue)
    requires
        v.wf(),
        (ModuleView { completions: v.completions.push(ret), ..v }).can_step(),
    ensures
        ({
            let delivered = ModuleView { completions: v.completions.push(ret), ..v };
            &&& delivered.after_step().executor.tasks[ret.caller_task_id].ret == Some(ret)
            &&& delivered.drained_executor().ready.last() == ret.caller_task_id
        }),
{
    let delivered = ModuleView { completions: v.completions.push(ret), ..v };
    let e = v.executor.spawn_all(v.calls);
    let rets = delivered.completions;
    crate::executor::lemma_spawn_all_wf(v.executor, v.calls);
    lemma_complete_all(e, rets);
    lemma_complete_all_records(e, rets, rets.len() - 1);
    let ids = rets.map_values(|r: AsyncCallReturnValue| r.caller_task_id);
    assert((e.ready + ids).last() == ids[rets.len() - 1]);
}

} // verus!
