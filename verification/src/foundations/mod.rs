pub mod endianness;
pub mod row_vs_col;
pub mod task_pool;
