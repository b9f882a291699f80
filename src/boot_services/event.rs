//! Event types.
use vstd::prelude::*;

verus! {

/// Type of event to create and its mode and attributes: a set of
/// `EVT_*` bits.
#[derive(Debug, Clone, Copy, PartialEq, Eq, PartialOrd, Ord, Structural)]
pub struct EventType(u32);

/// The `EVT_*` event types, each a function that gives its bits.
impl EventType {
    /// The bits of this event type.
    pub closed spec fn bits(self) -> u32 {
        self.0
    }

    /// A timer event.
    #[allow(non_snake_case)]
    pub fn TIMER() -> (r: EventType)
        ensures
            r.bits() == 0x80000000,
    {
        EventType(0x80000000)
    }

    /// The event is allocated from runtime memory.
    #[allow(non_snake_case)]
    pub fn RUNTIME() -> (r: EventType)
        ensures
            r.bits() == 0x40000000,
    {
        EventType(0x40000000)
    }

    /// The notification function is queued while the event is waited on.
    #[allow(non_snake_case)]
    pub fn NOTIFY_WAIT() -> (r: EventType)
        ensures
            r.bits() == 0x00000100,
    {
        EventType(0x00000100)
    }

    /// The notification function is queued whenever the event is signaled.
    #[allow(non_snake_case)]
    pub fn NOTIFY_SIGNAL() -> (r: EventType)
        ensures
            r.bits() == 0x00000200,
    {
        EventType(0x00000200)
    }

    /// Signaled when boot services exit; not to be combined with others.
    #[allow(non_snake_case)]
    pub fn SIGNAL_EXIT_BOOT_SERVICES() -> (r: EventType)
        ensures
            r.bits() == 0x00000201,
    {
        EventType(0x00000201)
    }

    /// Signaled when the virtual address map changes; not to be combined
    /// with others.
    #[allow(non_snake_case)]
    pub fn SIGNAL_VIRTUAL_ADDRESS_CHANGE() -> (r: EventType)
        ensures
            r.bits() == 0x60000202,
    {
        EventType(0x60000202)
    }
}

impl core::ops::BitOr for EventType {
    type Output = EventType;

    fn bitor(self, rhs: Self) -> Self::Output {
        EventType(self.0 | rhs.0)
    }
}

impl vstd::std_specs::ops::BitOrSpecImpl for EventType {
    open spec fn obeys_bitor_spec() -> bool {
        true
    }

    open spec fn bitor_req(self, rhs: Self) -> bool {
        true
    }

    closed spec fn bitor_spec(self, rhs: Self) -> Self {
        EventType(self.0 | rhs.0)
    }
}

impl core::ops::BitOrAssign for EventType {
    fn bitor_assign(&mut self, rhs: Self) {
        self.0 = self.0 | rhs.0;
    }
}

impl From<EventType> for u32 {
    fn from(t: EventType) -> (r: u32) {
        t.0
    }
}

impl vstd::std_specs::convert::FromSpecImpl<EventType> for u32 {
    open spec fn obeys_from_spec() -> bool {
        true
    }

    open spec fn from_spec(t: EventType) -> u32 {
        t.bits()
    }
}

} // verus!
