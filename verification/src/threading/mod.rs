pub mod async_value;
pub mod background_loop;
pub mod mailbox;
pub mod notifiable;
pub mod once_mailbox;
pub mod single_use_cell;
