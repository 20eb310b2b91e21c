use async_module::manager::AsyncModuleManager;
use async_module::module::{AsyncModule, AsyncModuleImpl};
use async_module::test_future::TestFuture;
use async_module::{AsyncCallArguments, AsyncCallReturnValue};

fn call(caller_module_id: usize, caller_task_id: usize, callee_module_id: usize) -> AsyncCallArguments {
    AsyncCallArguments { caller_module_id, caller_task_id, callee_module_id, data: [7, 0, 0, 0, 0] }
}

#[test]
fn new_module_is_empty() {
    let mut m = AsyncModuleImpl::new(3);
    assert_eq!(m.module_id(), 3);
    assert_eq!(m.executor.current_task_id, 0);
    assert!(m.executor.ready_queue.is_empty());
    assert!(m.executor.task_table.is_empty());
    assert!(m.pop_sq().is_none());
    assert!(m.pop_cq().is_none());
}

#[test]
fn submission_queue_is_first_in_first_out() {
    let mut m = AsyncModuleImpl::new(1);
    m.push_sq(call(0, 1, 1));
    m.push_sq(call(0, 2, 1));
    assert_eq!(m.pop_sq().unwrap().caller_task_id, 1);
    assert_eq!(m.pop_sq().unwrap().caller_task_id, 2);
    assert!(m.pop_sq().is_none());
}

#[test]
fn completion_queue_is_first_in_first_out() {
    let mut m = AsyncModuleImpl::new(1);
    m.push_cq(AsyncCallReturnValue { caller_task_id: 4, status: 1 });
    m.push_cq(AsyncCallReturnValue { caller_task_id: 5, status: 2 });
    assert_eq!(m.pop_cq().unwrap().status, 1);
    assert_eq!(m.pop_cq().unwrap().status, 2);
    assert!(m.pop_cq().is_none());
}

#[test]
fn spawned_task_ids_count_up_from_one() {
    let mut m = AsyncModuleImpl::new(1);
    assert_eq!(m.spawn_task(call(0, 0, 1)), 1);
    assert_eq!(m.spawn_task(call(0, 9, 1)), 2);
    assert_eq!(m.executor.current_task_id, 2);
    let ready: Vec<usize> = m.executor.ready_queue.iter().copied().collect();
    assert_eq!(ready, vec![1, 2]);
    let t2 = m.executor.task_table.get(&2).unwrap();
    assert_eq!(t2.task_id, 2);
    assert_eq!(t2.args.caller_task_id, 9);
    assert!(t2.ret.is_none());
}

#[test]
fn event_loop_step_spawns_submitted_calls_and_polls_the_first_ready_task() {
    let mut m = AsyncModuleImpl::new(1);
    m.push_sq(call(0, 10, 1));
    m.push_sq(call(0, 11, 1));
    assert!(m.can_step());
    let step = m.event_loop_step();
    let ids: Vec<usize> = step.spawned.iter().map(|t| t.task_id).collect();
    assert_eq!(ids, vec![1, 2]);
    assert_eq!(step.spawned[1].args.caller_task_id, 11);
    let polled = step.polled.unwrap();
    assert_eq!(polled.task_id, 1);
    assert_eq!(polled.args.caller_task_id, 10);
    let ready: Vec<usize> = m.executor.ready_queue.iter().copied().collect();
    assert_eq!(ready, vec![2]);
    assert!(m.pop_sq().is_none());
}

#[test]
fn event_loop_step_with_nothing_to_do_polls_nothing() {
    let mut m = AsyncModuleImpl::new(1);
    assert!(m.can_step());
    let step = m.event_loop_step();
    assert!(step.spawned.is_empty());
    assert!(step.polled.is_none());
}

#[test]
fn event_loop_step_records_answers_and_requeues_their_tasks() {
    let mut m = AsyncModuleImpl::new(1);
    m.spawn_task(call(0, 0, 1));
    m.spawn_task(call(0, 0, 1));
    assert!(m.can_step());
    let first = m.event_loop_step();
    assert_eq!(first.polled.unwrap().task_id, 1);
    let second = m.event_loop_step();
    assert_eq!(second.polled.unwrap().task_id, 2);
    m.push_cq(AsyncCallReturnValue { caller_task_id: 2, status: 5 });
    m.push_cq(AsyncCallReturnValue { caller_task_id: 1, status: 6 });
    assert!(m.can_step());
    let third = m.event_loop_step();
    let polled = third.polled.unwrap();
    assert_eq!(polled.task_id, 2);
    assert_eq!(polled.ret.unwrap().status, 5);
    let ready: Vec<usize> = m.executor.ready_queue.iter().copied().collect();
    assert_eq!(ready, vec![1]);
    assert_eq!(m.task_async_call_ret(1).unwrap().status, 6);
}

#[test]
fn can_step_refuses_an_answer_to_an_unknown_task_and_keeps_the_queue() {
    let mut m = AsyncModuleImpl::new(1);
    m.spawn_task(call(0, 0, 1));
    m.push_cq(AsyncCallReturnValue { caller_task_id: 1, status: 1 });
    m.push_cq(AsyncCallReturnValue { caller_task_id: 8, status: 2 });
    assert!(!m.can_step());
    assert_eq!(m.pop_cq().unwrap().status, 1);
    assert_eq!(m.pop_cq().unwrap().status, 2);
    assert!(m.pop_cq().is_none());
}

#[test]
fn can_step_accepts_an_answer_to_a_task_spawned_in_the_same_turn() {
    let mut m = AsyncModuleImpl::new(1);
    m.push_sq(call(0, 0, 1));
    m.push_cq(AsyncCallReturnValue { caller_task_id: 1, status: 3 });
    assert!(m.can_step());
    let step = m.event_loop_step();
    assert_eq!(step.polled.unwrap().ret.unwrap().status, 3);
}

#[test]
fn task_async_call_ret_takes_the_answer() {
    let mut m = AsyncModuleImpl::new(1);
    let id = m.spawn_task(call(0, 0, 1));
    assert!(m.task_async_call_ret(id).is_none());
    m.push_cq(AsyncCallReturnValue { caller_task_id: id, status: 233 });
    assert!(m.can_step());
    m.event_loop_step();
    assert_eq!(m.task_async_call_ret(id).unwrap().status, 233);
    assert!(m.task_async_call_ret(id).is_none());
}

#[test]
fn load_then_get_gives_the_module() {
    let mut mgr = AsyncModuleManager::new();
    assert!(!mgr.is_loaded(1));
    mgr.load_module(1, AsyncModuleImpl::new(1));
    mgr.load_module(2, AsyncModuleImpl::new(2));
    assert!(mgr.is_loaded(1));
    assert_eq!(mgr.get_module(2).module_id, 2);
    mgr.load_module(2, AsyncModuleImpl::new(5));
    assert_eq!(mgr.get_module(2).module_id, 5);
}

#[test]
fn pending_call_is_submitted_to_the_callee() {
    let mut mgr = AsyncModuleManager::new();
    let mut caller = AsyncModuleImpl::new(1);
    let task = caller.spawn_task(call(0, 0, 1));
    mgr.load_module(1, caller);
    mgr.load_module(2, AsyncModuleImpl::new(2));
    let args = call(1, task, 2);
    assert!(mgr.poll_async_call(args).is_none());
    assert!(mgr.can_step(2));
    let step = mgr.module_step(2);
    assert_eq!(step.spawned.len(), 1);
    assert_eq!(step.spawned[0].args.caller_task_id, task);
    assert_eq!(step.spawned[0].args.caller_module_id, 1);
}

#[test]
fn answer_travels_back_to_the_waiting_call() {
    let mut mgr = AsyncModuleManager::new();
    mgr.load_module(1, AsyncModuleImpl::new(1));
    mgr.load_module(2, AsyncModuleImpl::new(2));
    let mut m1 = AsyncModuleImpl::new(1);
    m1.push_sq(call(0, 0, 1));
    mgr.load_module(1, m1);
    assert!(mgr.can_step(1));
    let step1 = mgr.module_step(1);
    let task = step1.polled.unwrap();
    assert_eq!(task.task_id, 1);
    let args = call(1, task.task_id, 2);
    assert!(mgr.poll_async_call(args).is_none());
    assert!(mgr.can_step(2));
    let step2 = mgr.module_step(2);
    let callee_task = step2.polled.unwrap();
    assert_eq!(callee_task.args.caller_task_id, 1);
    mgr.finish_task(callee_task, AsyncCallReturnValue { caller_task_id: 1, status: 233 });
    assert!(mgr.can_step(1));
    let step3 = mgr.module_step(1);
    assert_eq!(step3.polled.unwrap().task_id, 1);
    let answer = mgr.poll_async_call(args).unwrap();
    assert_eq!(answer.status, 233);
    assert_eq!(answer.caller_task_id, 1);
}

#[test]
fn can_step_through_the_manager_refuses_an_unknown_task() {
    let mut mgr = AsyncModuleManager::new();
    mgr.load_module(1, AsyncModuleImpl::new(1));
    let mut m0 = AsyncModuleImpl::new(0);
    m0.spawn_task(call(1, 4, 0));
    assert!(m0.can_step());
    let task = m0.event_loop_step().polled.unwrap();
    mgr.finish_task(task, AsyncCallReturnValue { caller_task_id: 4, status: 0 });
    assert!(!mgr.can_step(1));
}

#[test]
fn test_future_is_pending_until_woken() {
    let mut f = TestFuture::new();
    assert!(!f.accessed);
    assert_eq!(f.poll(), None);
    assert_eq!(f.poll(), None);
    f.wake();
    assert_eq!(f.poll(), Some(200));
}

#[test]
fn finished_task_answer_goes_to_the_caller_module() {
    let mut mgr = AsyncModuleManager::new();
    mgr.load_module(1, AsyncModuleImpl::new(1));
    mgr.load_module(2, AsyncModuleImpl::new(2));
    let mut m2 = AsyncModuleImpl::new(2);
    m2.spawn_task(call(1, 3, 2));
    assert!(m2.can_step());
    let task = m2.event_loop_step().polled.unwrap();
    mgr.finish_task(task, AsyncCallReturnValue { caller_task_id: 3, status: 9 });
    assert!(mgr.get_module(2).executor.task_table.is_empty());
    // the answer waits in module 1's completion queue, addressed to task 3,
    // which module 1 does not have
    assert!(!mgr.can_step(1));
}

#[test]
fn can_poll_async_call_checks_caller_task_and_callee() {
    let mut mgr = AsyncModuleManager::new();
    let mut m1 = AsyncModuleImpl::new(1);
    let t = m1.spawn_task(call(0, 0, 1));
    mgr.load_module(1, m1);
    assert!(!mgr.can_poll_async_call(call(1, t, 2)));
    assert!(!mgr.can_poll_async_call(call(1, t + 1, 1)));
    assert!(!mgr.can_poll_async_call(call(3, t, 1)));
    assert!(mgr.can_poll_async_call(call(1, t, 1)));
    mgr.load_module(2, AsyncModuleImpl::new(2));
    assert!(mgr.can_poll_async_call(call(1, t, 2)));
}
