pub mod cancellable_subprocess;
pub mod cancellable_task_util;
pub mod free_cancellable_task;
