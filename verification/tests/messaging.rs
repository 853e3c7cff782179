use crossbeam_channel::{bounded, unbounded};
use parasect::messaging::channel::ChannelSender;
use parasect::messaging::listener::ListenerBehavior;
use parasect::messaging::mailbox::Mailbox;
use parasect::messaging::once_mailbox::OnceMailbox;

#[test]
fn test_once_mailbox_new() {
    let (mut send, recv) = OnceMailbox::new();

    assert!(send.send_msg(69));
    assert!(!send.send_msg(70));

    assert_eq!(recv.try_recv(), Ok(69));
    assert!(recv.try_recv().is_err());
}

#[test]
fn test_once_mailbox_wrap() {
    let (s, r) = unbounded();
    let mut mailbox = OnceMailbox::wrap(ChannelSender::new(s));

    assert!(mailbox.send_msg(69));
    assert!(!mailbox.send_msg(70));

    assert_eq!(r.try_recv(), Ok(69));
    assert!(r.try_recv().is_err());
}

#[test]
fn test_sender_mailbox() {
    let (s, r) = bounded(1);
    let mut s = ChannelSender::new(s);

    assert!(s.send_msg(1));
    assert!(!s.send_msg(2));

    assert_eq!(r.recv().unwrap(), 1);
}

#[test]
fn listener_keeps_processing_by_default() {
    assert_eq!(ListenerBehavior::default_behavior(), ListenerBehavior::ContinueProcessing);
}
