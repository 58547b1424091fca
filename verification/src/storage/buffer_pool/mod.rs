pub mod frame;
pub mod free_frames;
pub mod metrics;
pub mod page_table;
pub mod clock_replacer;
pub mod manager;
