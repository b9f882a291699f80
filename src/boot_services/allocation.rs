//! Page allocation requests and memory map entries.
use vstd::prelude::*;

verus! {

/// Where an allocation of pages may be placed.
#[derive(Debug, Clone, Copy, PartialEq, Eq, Structural)]
pub enum AllocType {
    /// Anywhere.
    AnyPage,
    /// At or below the given address.
    MaxAddress(usize),
    /// At exactly the given address.
    Address(usize),
}

impl From<AllocType> for u32 {
    /// The `EFI_ALLOCATE_TYPE` value of the request.
    fn from(t: AllocType) -> (r: u32) {
        match t {
            AllocType::AnyPage => 0,
            AllocType::MaxAddress(_) => 1,
            AllocType::Address(_) => 2,
        }
    }
}

impl vstd::std_specs::convert::FromSpecImpl<AllocType> for u32 {
    open spec fn obeys_from_spec() -> bool {
        true
    }

    open spec fn from_spec(t: AllocType) -> u32 {
        match t {
            AllocType::AnyPage => 0,
            AllocType::MaxAddress(_) => 1,
            AllocType::Address(_) => 2,
        }
    }
}

/// The kind of memory a region holds.
#[derive(Debug, Clone, Copy, PartialEq, Eq, Structural)]
pub enum MemoryType {
    ReservedMemoryType,
    LoaderCode,
    LoaderData,
    BootServicesCode,
    BootServicesData,
    RuntimeServicesCode,
    RuntimeServicesData,
    ConventionalMemory,
    UnusableMemory,
    ACPIReclaimMemory,
    ACPIMemoryNVS,
    MemoryMappedIO,
    MemoryMappedIOPortSpace,
    PalCode,
    PersistentMemory,
    UnacceptedMemoryType,
}

/// The `EFI_MEMORY_TYPE` value of each memory type: its place in the list.
pub open spec fn memory_type_value(t: MemoryType) -> u32 {
    match t {
        MemoryType::ReservedMemoryType => 0,
        MemoryType::LoaderCode => 1,
        MemoryType::LoaderData => 2,
        MemoryType::BootServicesCode => 3,
        MemoryType::BootServicesData => 4,
        MemoryType::RuntimeServicesCode => 5,
        MemoryType::RuntimeServicesData => 6,
        MemoryType::ConventionalMemory => 7,
        MemoryType::UnusableMemory => 8,
        MemoryType::ACPIReclaimMemory => 9,
        MemoryType::ACPIMemoryNVS => 10,
        MemoryType::MemoryMappedIO => 11,
        MemoryType::MemoryMappedIOPortSpace => 12,
        MemoryType::PalCode => 13,
        MemoryType::PersistentMemory => 14,
        MemoryType::UnacceptedMemoryType => 15,
    }
}

impl From<MemoryType> for u32 {
    fn from(t: MemoryType) -> (r: u32) {
        match t {
            MemoryType::ReservedMemoryType => 0,
            MemoryType::LoaderCode => 1,
            MemoryType::LoaderData => 2,
            MemoryType::BootServicesCode => 3,
            MemoryType::BootServicesData => 4,
            MemoryType::RuntimeServicesCode => 5,
            MemoryType::RuntimeServicesData => 6,
            MemoryType::ConventionalMemory => 7,
            MemoryType::UnusableMemory => 8,
            MemoryType::ACPIReclaimMemory => 9,
            MemoryType::ACPIMemoryNVS => 10,
            MemoryType::MemoryMappedIO => 11,
            MemoryType::MemoryMappedIOPortSpace => 12,
            MemoryType::PalCode => 13,
            MemoryType::PersistentMemory => 14,
            MemoryType::UnacceptedMemoryType => 15,
        }
    }
}

impl vstd::std_specs::convert::FromSpecImpl<MemoryType> for u32 {
    open spec fn obeys_from_spec() -> bool {
        true
    }

    open spec fn from_spec(t: MemoryType) -> u32 {
        memory_type_value(t)
    }
}

/// One entry of the memory map.
#[derive(Debug)]
pub struct MemoryDescriptor {
    pub memory_type: MemoryType,
    pub physical_start: usize,
    pub virtual_start: usize,
    pub nb_pages: usize,
    pub attribute: MemoryAttribute,
}

/// A set of `EFI_MEMORY_*` attribute bits.
#[derive(Debug, Clone, Copy, PartialEq, Eq, Structural)]
pub struct MemoryAttribute(u64);

/// The `EFI_MEMORY_*` attributes, each a function that gives that one bit
/// (or, for `ISA_MASK`, that field).
impl MemoryAttribute {
    #[allow(non_snake_case)]
    pub fn UC() -> (r: MemoryAttribute)
        ensures
            r.bits() == 0x0000000000000001,
    {
        MemoryAttribute(0x0000000000000001)
    }
    #[allow(non_snake_case)]
    pub fn WC() -> (r: MemoryAttribute)
        ensures
            r.bits() == 0x0000000000000002,
    {
        MemoryAttribute(0x0000000000000002)
    }
    #[allow(non_snake_case)]
    pub fn WT() -> (r: MemoryAttribute)
        ensures
            r.bits() == 0x0000000000000004,
    {
        MemoryAttribute(0x0000000000000004)
    }
    #[allow(non_snake_case)]
    pub fn WB() -> (r: MemoryAttribute)
        ensures
            r.bits() == 0x0000000000000008,
    {
        MemoryAttribute(0x0000000000000008)
    }
    #[allow(non_snake_case)]
    pub fn UCE() -> (r: MemoryAttribute)
        ensures
            r.bits() == 0x0000000000000010,
    {
        MemoryAttribute(0x0000000000000010)
    }
    #[allow(non_snake_case)]
    pub fn WP() -> (r: MemoryAttribute)
        ensures
            r.bits() == 0x0000000000001000,
    {
        MemoryAttribute(0x0000000000001000)
    }
    #[allow(non_snake_case)]
    pub fn RP() -> (r: MemoryAttribute)
        ensures
            r.bits() == 0x0000000000002000,
    {
        MemoryAttribute(0x0000000000002000)
    }
    #[allow(non_snake_case)]
    pub fn XP() -> (r: MemoryAttribute)
        ensures
            r.bits() == 0x0000000000004000,
    {
        MemoryAttribute(0x0000000000004000)
    }
    #[allow(non_snake_case)]
    pub fn NV() -> (r: MemoryAttribute)
        ensures
            r.bits() == 0x0000000000008000,
    {
        MemoryAttribute(0x0000000000008000)
    }
    #[allow(non_snake_case)]
    pub fn MORE_RELIABLE() -> (r: MemoryAttribute)
        ensures
            r.bits() == 0x0000000000010000,
    {
        MemoryAttribute(0x0000000000010000)
    }
    #[allow(non_snake_case)]
    pub fn RO() -> (r: MemoryAttribute)
        ensures
            r.bits() == 0x0000000000020000,
    {
        MemoryAttribute(0x0000000000020000)
    }
    #[allow(non_snake_case)]
    pub fn SP() -> (r: MemoryAttribute)
        ensures
            r.bits() == 0x0000000000040000,
    {
        MemoryAttribute(0x0000000000040000)
    }
    #[allow(non_snake_case)]
    pub fn CPU_CRYPTO() -> (r: MemoryAttribute)
        ensures
            r.bits() == 0x0000000000080000,
    {
        MemoryAttribute(0x0000000000080000)
    }
    #[allow(non_snake_case)]
    pub fn RUNTIME() -> (r: MemoryAttribute)
        ensures
            r.bits() == 0x8000000000000000,
    {
        MemoryAttribute(0x8000000000000000)
    }
    #[allow(non_snake_case)]
    pub fn ISA_VALID() -> (r: MemoryAttribute)
        ensures
            r.bits() == 0x4000000000000000,
    {
        MemoryAttribute(0x4000000000000000)
    }
    #[allow(non_snake_case)]
    pub fn ISA_MASK() -> (r: MemoryAttribute)
        ensures
            r.bits() == 0x0FFFF00000000000,
    {
        MemoryAttribute(0x0FFFF00000000000)
    }

    /// The attribute bits.
    pub closed spec fn bits(self) -> u64 {
        self.0
    }
}

impl core::ops::BitOr for MemoryAttribute {
    type Output = MemoryAttribute;

    fn bitor(self, rhs: Self) -> Self::Output {
        MemoryAttribute(self.0 | rhs.0)
    }
}

impl vstd::std_specs::ops::BitOrSpecImpl for MemoryAttribute {
    open spec fn obeys_bitor_spec() -> bool {
        true
    }

    open spec fn bitor_req(self, rhs: Self) -> bool {
        true
    }

    closed spec fn bitor_spec(self, rhs: Self) -> Self {
        MemoryAttribute(self.0 | rhs.0)
    }
}

impl core::ops::BitOrAssign for MemoryAttribute {
    fn bitor_assign(&mut self, rhs: Self) {
        self.0 = self.0 | rhs.0;
    }
}

impl From<MemoryAttribute> for u64 {
    fn from(a: MemoryAttribute) -> (r: u64) {
        a.0
    }
}

impl vstd::std_specs::convert::FromSpecImpl<MemoryAttribute> for u64 {
    open spec fn obeys_from_spec() -> bool {
        true
    }

    open spec fn from_spec(a: MemoryAttribute) -> u64 {
        a.bits()
    }
}

} // verus!
