use crossbeam_channel::bounded;
use parasect::messaging::channel::ChannelSender;
use parasect::task::cancellable_subprocess::SubprocessError;
use parasect::task::cancellable_task_util::CancellationType;
use parasect::task::free_cancellable_task::FreeCancellableTask;

#[test]
fn notify_returns_value() {
    let mut task = FreeCancellableTask::<i64>::new(69);
    let (s, r) = bounded(1);

    task.notify_when_done(&mut ChannelSender::new(s));
    assert_eq!(r.recv().unwrap(), Some(69));
}

#[test]
fn notify_returns_none_on_cancel() {
    let mut task = FreeCancellableTask::<i64>::new(69);
    let (s, r) = bounded(1);

    task.request_cancellation();
    task.notify_when_done(&mut ChannelSender::new(s));

    assert_eq!(r.recv().unwrap(), None);
}

#[test]
fn wait_returns_value() {
    let mut task = FreeCancellableTask::<i64>::new(69);
    assert_eq!(task.wait(), Some(69));
}

#[test]
fn wait_returns_none_on_cancel() {
    let mut task = FreeCancellableTask::<i64>::new(69);
    task.request_cancellation();
    assert_eq!(task.wait(), None);
}

#[test]
fn test_assert_ct_invariants() {
    let mut task = FreeCancellableTask::<i64>::new(69);
    let (s1, r1) = bounded(1);
    let (s2, r2) = bounded(1);
    task.notify_when_done(&mut ChannelSender::new(s1));
    task.notify_when_done(&mut ChannelSender::new(s2));
    assert_eq!(r1.recv().unwrap(), r2.recv().unwrap());

    let mut task = FreeCancellableTask::<i64>::new(69);
    let v1 = task.wait();
    let v2 = task.wait();
    assert_eq!(v1, v2);

    let mut task = FreeCancellableTask::<i64>::new(69);
    let v1 = task.wait();
    task.request_cancellation();
    let v2 = task.wait();
    assert_eq!(v1, v2);

    let mut task = FreeCancellableTask::<i64>::new(69);
    task.request_cancellation();
    let v1 = task.wait();
    task.request_cancellation();
    let v2 = task.wait();
    assert_eq!(v1, v2);
}

#[test]
fn cancellation_types_differ() {
    assert_ne!(CancellationType::CancelOthers, CancellationType::ContinueOthers);
}

#[test]
fn subprocess_errors_describe_themselves() {
    let e = SubprocessError::ProcessSpawnError(std::io::Error::new(std::io::ErrorKind::NotFound, "no such file"));
    assert_eq!(e.to_text(), "Subprocess failed to spawn: no such file");
    let e = SubprocessError::ProcessWaitError(std::io::Error::new(std::io::ErrorKind::Other, "gone"));
    assert_eq!(e.to_text(), "Failed to read the process's return code: gone");
}

#[test]
fn test_parallel_execute() {}
