//! Constants of the kernel.
use vstd::prelude::*;

verus! {

/// Size of a user application's stack.
pub const USER_STACK_SIZE: usize = 8192;

/// Size of a kernel stack.
pub const KERNEL_STACK_SIZE: usize = 8192;

/// Size of the kernel heap.
pub const KERNEL_HEAP_SIZE: usize = 0x200_0000;

/// Size of a page: 4 KiB.
pub const PAGE_SIZE: usize = 0x1000;

/// Number of bits of a page offset.
pub const PAGE_SIZE_BITS: usize = 0xc;

/// Largest system call number that is counted.
pub const MAX_SYSCALL_NUM: usize = 500;

/// Virtual address of the trampoline: the last page of the address space.
pub const TRAMPOLINE: usize = usize::MAX - PAGE_SIZE + 1;

/// Virtual address of the trap context: the page just below the trampoline.
pub const TRAP_CONTEXT_BASE: usize = TRAMPOLINE - PAGE_SIZE;

/// Clock frequency.
pub const CLOCK_FREQ: usize = 12500000;

/// End of physical memory.
pub const MEMORY_END: usize = 0x88000000;

} // verus!
