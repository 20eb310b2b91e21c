use vstd::prelude::*;

verus! {

/// The arguments of an asynchronous call from a task of one module to another module.
#[derive(Copy, Clone, Debug)]
pub struct AsyncCallArguments {
    pub caller_module_id: usize,
    pub caller_task_id: usize,
    pub callee_module_id: usize,
    pub data: [usize; 5],
}

/// The answer to an asynchronous call, addressed to the calling task.
#[derive(Copy, Clone, Debug)]
pub struct AsyncCallReturnValue {
    pub caller_task_id: usize,
    pub status: usize,
}

} // verus!
