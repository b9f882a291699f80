use mu_rust_helpers::boot_services::allocation::{AllocType, MemoryAttribute, MemoryType};
use mu_rust_helpers::boot_services::event::EventType;
use mu_rust_helpers::boot_services::tpl::Tpl;
use mu_rust_helpers::runtime_services::allocation as rt;
use mu_rust_helpers::runtime_services::variable_services::VariableInfo;
use mu_rust_helpers::{ArchFunctionality, Instant};
use r_efi::efi;

#[test]
fn alloc_type_maps_to_efi_allocate_type() {
    assert_eq!(u32::from(AllocType::AnyPage), efi::ALLOCATE_ANY_PAGES);
    assert_eq!(u32::from(AllocType::MaxAddress(0x1000)), efi::ALLOCATE_MAX_ADDRESS);
    assert_eq!(u32::from(AllocType::Address(0x2000)), efi::ALLOCATE_ADDRESS);
    assert_eq!(u32::from(rt::AllocType::Address(0x2000)), efi::ALLOCATE_ADDRESS);
}

#[test]
fn memory_type_maps_to_efi_memory_type() {
    assert_eq!(u32::from(MemoryType::ReservedMemoryType), efi::RESERVED_MEMORY_TYPE);
    assert_eq!(u32::from(MemoryType::LoaderData), efi::LOADER_DATA);
    assert_eq!(u32::from(MemoryType::BootServicesData), efi::BOOT_SERVICES_DATA);
    assert_eq!(u32::from(MemoryType::ConventionalMemory), efi::CONVENTIONAL_MEMORY);
    assert_eq!(u32::from(MemoryType::ACPIMemoryNVS), efi::ACPI_MEMORY_NVS);
    assert_eq!(u32::from(MemoryType::MemoryMappedIOPortSpace), efi::MEMORY_MAPPED_IO_PORT_SPACE);
    assert_eq!(u32::from(MemoryType::UnacceptedMemoryType), efi::UNACCEPTED_MEMORY_TYPE);
    assert_eq!(u32::from(rt::MemoryType::RUNTIME_SERVICES_CODE()), efi::RUNTIME_SERVICES_CODE);
    assert_eq!(u32::from(rt::MemoryType::PERSISTENT_MEMORY()), efi::PERSISTENT_MEMORY);
}

#[test]
fn memory_attributes_match_efi_bits_and_combine() {
    assert_eq!(u64::from(MemoryAttribute::UC()), efi::MEMORY_UC);
    assert_eq!(u64::from(MemoryAttribute::RUNTIME()), efi::MEMORY_RUNTIME);
    assert_eq!(u64::from(MemoryAttribute::ISA_MASK()), efi::MEMORY_ISA_MASK);
    assert_eq!(u64::from(MemoryAttribute::UC() | MemoryAttribute::WB()), efi::MEMORY_UC | efi::MEMORY_WB);
    let mut a = MemoryAttribute::XP();
    a |= MemoryAttribute::RO();
    assert_eq!(u64::from(a), efi::MEMORY_XP | efi::MEMORY_RO);
    assert_eq!(u64::from(rt::MemoryAttribute::CPU_CRYPTO() | rt::MemoryAttribute::SP()), efi::MEMORY_CPU_CRYPTO | efi::MEMORY_SP);
}

#[test]
fn memory_descriptor_holds_its_fields() {
    let d = mu_rust_helpers::boot_services::allocation::MemoryDescriptor {
        memory_type: MemoryType::LoaderCode,
        physical_start: 0x1000,
        virtual_start: 0x2000,
        nb_pages: 3,
        attribute: MemoryAttribute::WB(),
    };
    assert_eq!(d.nb_pages, 3);
    assert_eq!(u32::from(d.memory_type), efi::LOADER_CODE);
}

#[test]
fn event_types_match_efi_bits() {
    assert_eq!(u32::from(EventType::TIMER()), efi::EVT_TIMER);
    assert_eq!(u32::from(EventType::SIGNAL_EXIT_BOOT_SERVICES()), efi::EVT_SIGNAL_EXIT_BOOT_SERVICES);
    assert_eq!(u32::from(EventType::TIMER() | EventType::NOTIFY_SIGNAL()), efi::EVT_TIMER | efi::EVT_NOTIFY_SIGNAL);
    let mut t = EventType::RUNTIME();
    t |= EventType::NOTIFY_WAIT();
    assert_eq!(u32::from(t), efi::EVT_RUNTIME | efi::EVT_NOTIFY_WAIT);
    assert_eq!(u32::from(EventType::SIGNAL_VIRTUAL_ADDRESS_CHANGE()), efi::EVT_SIGNAL_VIRTUAL_ADDRESS_CHANGE);
}

#[test]
fn tpl_levels_match_efi_and_order() {
    assert_eq!(usize::from(Tpl::APPLICATION()), efi::TPL_APPLICATION);
    assert_eq!(usize::from(Tpl::CALLBACK()), efi::TPL_CALLBACK);
    assert_eq!(usize::from(Tpl::NOTIFY()), efi::TPL_NOTIFY);
    assert!(Tpl::APPLICATION() < Tpl::NOTIFY());
    assert_eq!(Tpl::from(8usize), Tpl::CALLBACK());
}

#[test]
fn variable_info_holds_its_fields() {
    let v = VariableInfo {
        maximum_variable_storage_size: 100,
        remaining_variable_storage_size: 40,
        maximum_variable_size: 10,
    };
    assert_eq!(v.maximum_variable_storage_size - v.remaining_variable_storage_size, 60);
}

struct FixedCounter;

impl ArchFunctionality for FixedCounter {
    fn cpu_count() -> u64 {
        5000
    }

    fn perf_frequency() -> u64 {
        1000
    }
}

#[test]
fn instants_carry_count_and_frequency() {
    let now = Instant::now::<FixedCounter>();
    assert_eq!(now.cpu_count(), 5000);
    assert_eq!(now.frequency(), 1000);
    let start = Instant::beginning::<FixedCounter>();
    assert_eq!(start.cpu_count(), 0);
    assert_eq!(FixedCounter::cpu_count_end(), u64::MAX);
    let earlier = Instant::from_cpu_count::<FixedCounter>(1250);
    assert_eq!(now.cycles_since(&earlier), 3750);
    assert_eq!(now.cycles_since(&start), 5000);
}
