pub mod checks;
pub mod slotted_page;
