pub mod algorithms;
pub mod cli;
pub mod collections;
pub mod command_gen;
pub mod messaging;
pub mod parasect;
pub mod range;
pub mod setup;
pub mod task;
pub mod threading;
pub mod ui;
pub mod util;
