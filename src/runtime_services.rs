//! Plain data types used with the runtime services table.
pub mod allocation;
pub mod variable_services;
