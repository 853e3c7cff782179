pub mod background_loop;
pub mod event_handler;
pub mod parasect;
pub mod parasect_result_map;
pub mod result_store;
pub mod types;
pub mod worker;
