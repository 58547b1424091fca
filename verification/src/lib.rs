pub mod foundations;
pub mod storage;
pub mod bench;
