//! Memory-management core of a small x86-64 kernel: a bitmap-based physical
//! frame allocator, a typed model of the four-level page tables, a free-list
//! virtual memory allocator, and the heap bootstrap that ties them together.
//!
//! Data flows strictly upward: boot memory map, physical frame allocator,
//! address translation, virtual memory allocator, heap. The hardware-facing
//! pieces around this library (boot handoff, control registers, writing the
//! table model into live memory) hand plain values in and carry the results
//! out; everything that decides lives here.

pub mod addr;
pub mod bootstrap;
pub mod console;
pub mod heap;
pub mod mem;
pub mod paging;
pub mod pmm;
pub mod vmm;

pub use addr::FRAME_SIZE;
