pub mod channel;
pub mod listener;
pub mod mailbox;
pub mod once_mailbox;
