mod address;
mod elf;
mod frame_allocator;
mod map_permission;
mod map_type;
mod memory_area;
mod memory_set;
mod memory_set_builder;
mod page_table;

pub use address::{ceil_page, floor_page, page_base, PAGE_SIZE};
pub use frame_allocator::FrameAllocator;
pub use map_permission::MapPermission;
pub use map_type::MapType;
pub use page_table::{PageTable, PageTableEntry};
pub use memory_area::{MapArea, VpnRange};
pub use memory_set::MemorySet;
pub use memory_set_builder::MemorySetBuilder;
pub use elf::{from_elf, get_map_perm, load_segments, parse_elf, ElfHeader, LoadError, ProgramHeaderInfo};
