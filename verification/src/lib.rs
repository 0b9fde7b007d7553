//! Early-boot physical memory subsystem: turns a raw firmware memory map into
//! the final, gap-free memory layout handed to a loaded kernel, backed by a
//! forward-only frame allocator, a page-table bootstrap model, and a legacy
//! firmware-table (ACPI root pointer) scan.

pub mod acpi;
pub mod boot_flow;
pub mod frame_allocator;
pub mod memory_map;
pub mod normalize;
pub mod page_table;
pub mod region;
pub mod screen;
pub mod system_info;
