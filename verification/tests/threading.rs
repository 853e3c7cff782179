use crossbeam_channel::bounded;
use parasect::messaging::channel::ChannelSender;
use parasect::threading::async_value::AsyncValue;
use parasect::threading::mailbox::Mailbox;
use parasect::threading::once_mailbox::OnceMailbox;
use parasect::threading::single_use_cell::SingleUseCell;

#[test]
fn once_mailbox_test_once_sender() {
    let (mut send, recv) = OnceMailbox::new();

    assert_eq!(send.give_message(69), true);
    assert_eq!(send.give_message(70), false);

    assert_eq!(recv.try_recv(), Ok(69));
    assert!(recv.try_recv().is_err());
}

#[test]
fn once_mailbox_wrap_passes_one_message() {
    let (s, r) = bounded(5);
    let mut mailbox = OnceMailbox::wrap(ChannelSender::new(s));
    assert!(mailbox.give_message(1));
    assert!(!mailbox.give_message(2));
    assert_eq!(r.try_recv(), Ok(1));
    assert!(r.try_recv().is_err());
}

#[test]
fn test_take() {
    let mut c = SingleUseCell::new(69);

    assert_eq!(c.take(), Some(69));
}

#[test]
fn test_take_twice() {
    let mut c = SingleUseCell::new(69);

    assert_eq!(c.take(), Some(69));
    assert_eq!(c.take(), None);
}

#[test]
fn test_has_value() {
    let mut c = SingleUseCell::new(69);

    assert!(c.has_value());
    c.take();
    assert!(!c.has_value());
}

#[test]
fn single_use_cell_test_empty() {
    let mut c = SingleUseCell::<()>::empty();

    assert!(!c.has_value());
    assert_eq!(c.take(), None);
}

#[test]
fn test_from() {
    let mut a: AsyncValue<i32, ChannelSender<i32>> = AsyncValue::from_value(69);

    let (s, r) = bounded(1);

    a.notify(ChannelSender::new(s));

    assert_eq!(r.recv().unwrap(), 69);
    assert_eq!(a.wait(), 69);
}

#[test]
fn test_notify_notifies() {
    let mut a = AsyncValue::new();

    let (s1, r1) = bounded(1);
    let (s2, r2) = bounded(1);

    a.notify(ChannelSender::new(s1));
    a.notify(ChannelSender::new(s2));

    a.send(69);

    assert_eq!(r1.recv().unwrap(), 69);
    assert_eq!(r2.recv().unwrap(), 69);
}

#[test]
fn test_notify_after_send() {
    let mut a = AsyncValue::new();

    let (s1, r1) = bounded(1);
    let (s2, r2) = bounded(1);

    a.send(69);

    a.notify(ChannelSender::new(s1));
    a.notify(ChannelSender::new(s2));

    assert_eq!(r1.recv().unwrap(), 69);
    assert_eq!(r2.recv().unwrap(), 69);
}

#[test]
fn test_wait_noblock_after_send() {
    let mut a: AsyncValue<i32, ChannelSender<i32>> = AsyncValue::new();

    a.send(69);
    let v1 = a.wait();
    let v2 = a.wait();

    assert_eq!(v1, 69);
    assert_eq!(v2, 69);
}

#[test]
fn async_value_keeps_first_value() {
    let mut a: AsyncValue<i32, ChannelSender<i32>> = AsyncValue::new();
    a.send(1);
    a.send(2);
    assert_eq!(a.wait(), 1);
}

#[test]
fn async_value_later_send_tells_no_one() {
    let mut a = AsyncValue::new();
    let (s1, r1) = bounded(2);
    a.notify(ChannelSender::new(s1));
    a.send(69);
    a.send(70);
    assert_eq!(r1.recv().unwrap(), 69);
    assert!(r1.try_recv().is_err());
    assert_eq!(a.wait(), 69);
}
