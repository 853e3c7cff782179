pub mod cli_args;
pub mod error_handling;
pub mod utils;
