pub mod parasect;
pub mod parasect_result_map;
