pub mod iterator;
pub mod owned;
