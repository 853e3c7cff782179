pub mod bisecting_range_queue;
pub mod numeric_range;
pub mod numeric_range_set;
