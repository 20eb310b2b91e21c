# async_module

Modules that call one another asynchronously. Each module has a submission
queue of calls made to it, a completion queue of answers to the calls its own
tasks made, and an executor with a task table and a ready queue.

- `src/` is the verified library: the queues (`crossbeam`'s `SegQueue`), the
  executor's rules (how calls become tasks, how answers reach tasks, which task
  runs next) and the module table through which a pending call is submitted
  to its callee and its answer delivered back.
- `app/` is the program around it: it owns the futures of the tasks, polls
  them, and runs one event loop thread per module.
