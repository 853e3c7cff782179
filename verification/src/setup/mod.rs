pub mod cli_args;
pub mod command_gen;
pub mod parasect_settings;
