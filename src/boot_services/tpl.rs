//! Task priority levels.
use vstd::prelude::*;

verus! {

/// Task Priority Level.
#[derive(Debug, PartialEq, Eq, Clone, Copy, PartialOrd, Ord, Structural)]
pub struct Tpl(pub usize);

impl Tpl {
    /// The lowest level, at which applications and user I/O run.
    #[allow(non_snake_case)]
    pub fn APPLICATION() -> (r: Tpl)
        ensures
            r.0 == 4,
    {
        Tpl(4)
    }

    /// The level of long-running operations such as file system and disk
    /// I/O.
    #[allow(non_snake_case)]
    pub fn CALLBACK() -> (r: Tpl)
        ensures
            r.0 == 8,
    {
        Tpl(8)
    }

    /// The level of low-level device I/O; blocking is not allowed here.
    #[allow(non_snake_case)]
    pub fn NOTIFY() -> (r: Tpl)
        ensures
            r.0 == 16,
    {
        Tpl(16)
    }
}

impl From<Tpl> for usize {
    fn from(t: Tpl) -> (r: usize) {
        t.0
    }
}

impl vstd::std_specs::convert::FromSpecImpl<Tpl> for usize {
    open spec fn obeys_from_spec() -> bool {
        true
    }

    open spec fn from_spec(t: Tpl) -> usize {
        t.0
    }
}

impl From<usize> for Tpl {
    fn from(level: usize) -> (r: Tpl) {
        Tpl(level)
    }
}

impl vstd::std_specs::convert::FromSpecImpl<usize> for Tpl {
    open spec fn obeys_from_spec() -> bool {
        true
    }

    open spec fn from_spec(level: usize) -> Tpl {
        Tpl(level)
    }
}

} // verus!
