//! Plain data types used with the boot services table.
pub mod allocation;
pub mod event;
pub mod tpl;
