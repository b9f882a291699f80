//! Results of the variable services.
use vstd::prelude::*;

verus! {

/// Storage figures that `QueryVariableInfo` reports.
#[derive(Debug)]
pub struct VariableInfo {
    pub maximum_variable_storage_size: u64,
    pub remaining_variable_storage_size: u64,
    pub maximum_variable_size: u64,
}

} // verus!
