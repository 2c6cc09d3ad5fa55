use os::id::RecycleAllocator;
use os::manager::TaskManager;
use os::config::{PAGE_SIZE, TRAP_CONTEXT_BASE, TRAMPOLINE};
use os::mm::{ceil, floor, virt_addr, MapPermission, MemorySet, PERM_R, PERM_U, PERM_W, PERM_X};
use os::process::{MmapRegion, ProcessControlBlock};
use os::syscall::{align_up_len, prot_to_perm, sys_mmap, sys_munmap, sys_sbrk};

fn process() -> ProcessControlBlock {
    let mut pids = RecycleAllocator::new();
    pids.allocate();
    let mut m = TaskManager::new();
    ProcessControlBlock::new(&mut pids, &mut m, MemorySet::new(0x8000_0000_0000_1000), 0x1_0000, 0x1000, 100, 0, 0, 0, 0).0
}

#[test]
fn trampoline_and_trap_context_are_the_last_pages() {
    assert_eq!(TRAMPOLINE, 0xffff_ffff_ffff_f000);
    assert_eq!(TRAP_CONTEXT_BASE, 0xffff_ffff_ffff_e000);
}

#[test]
fn addresses_keep_low_39_bits() {
    assert_eq!(virt_addr((1usize << 39) | 5), 5);
    assert_eq!(virt_addr(0x7f_ffff_ffff), 0x7f_ffff_ffff);
    assert_eq!(virt_addr(usize::MAX), 0x7f_ffff_ffff);
}

#[test]
fn pages_round_down_and_up() {
    assert_eq!(floor(0), 0);
    assert_eq!(floor(4095), 0);
    assert_eq!(floor(4096), 1);
    assert_eq!(ceil(0), 0);
    assert_eq!(ceil(1), 1);
    assert_eq!(ceil(4096), 1);
    assert_eq!(ceil(4097), 2);
}

#[test]
fn lengths_round_up_to_pages() {
    assert_eq!(align_up_len(0), None);
    assert_eq!(align_up_len(1), Some(4096));
    assert_eq!(align_up_len(4096), Some(4096));
    assert_eq!(align_up_len(4097), Some(8192));
    assert_eq!(align_up_len(usize::MAX), None);
    assert_eq!(align_up_len(usize::MAX - 4095), Some(0xffff_ffff_ffff_f000));
}

#[test]
fn protections_map_to_permissions() {
    assert!(prot_to_perm(0).is_none());
    assert!(prot_to_perm(8).is_none());
    assert!(prot_to_perm(9).is_none());
    assert_eq!(prot_to_perm(1).unwrap().bits, PERM_U | PERM_R);
    assert_eq!(prot_to_perm(2).unwrap().bits, PERM_U | PERM_W | PERM_R);
    assert_eq!(prot_to_perm(3).unwrap().bits, PERM_U | PERM_W | PERM_R);
    assert_eq!(prot_to_perm(4).unwrap().bits, PERM_U | PERM_X);
    assert_eq!(prot_to_perm(5).unwrap().bits, PERM_U | PERM_R | PERM_X);
    assert_eq!(prot_to_perm(7).unwrap().bits, 30);
}

#[test]
fn mmap_maps_whole_pages() {
    let mut p = process();
    assert_eq!(sys_mmap(&mut p.inner, 0x10_0000, 4097, 3), 0);
    let rw = PERM_U | PERM_R | PERM_W;
    assert!(p.inner.memory_set.translate(0x100) == Some(MapPermission::from_bits(rw)));
    assert!(p.inner.memory_set.translate(0x101) == Some(MapPermission::from_bits(rw)));
    assert!(p.inner.memory_set.translate(0x102).is_none());
    let region = p.inner.mmap_areas.get(&0x10_0000).unwrap();
    assert!(*region == MmapRegion { start: 0x10_0000, len: 8192, perm: MapPermission::from_bits(rw) });
}

#[test]
fn mmap_refuses_bad_requests() {
    let mut p = process();
    assert_eq!(sys_mmap(&mut p.inner, 0x10_0001, 4096, 3), -1);
    assert_eq!(sys_mmap(&mut p.inner, 0x10_0000, 0, 3), -1);
    assert_eq!(sys_mmap(&mut p.inner, 0x10_0000, usize::MAX, 3), -1);
    assert_eq!(sys_mmap(&mut p.inner, 0x10_0000, 4096, 0), -1);
    assert_eq!(sys_mmap(&mut p.inner, 0x10_0000, 4096, 8), -1);
    assert_eq!(sys_mmap(&mut p.inner, TRAP_CONTEXT_BASE, 4096, 3), -1);
    assert_eq!(sys_mmap(&mut p.inner, usize::MAX - 4095, 8192, 3), -1);
    // the user stack of the main thread is mapped at 0x10000
    assert_eq!(sys_mmap(&mut p.inner, 0x1_0000, 4096, 3), -1);
    assert!(p.inner.mmap_areas.is_empty());
}

#[test]
fn mmap_refuses_existing_region_and_overlap() {
    let mut p = process();
    assert_eq!(sys_mmap(&mut p.inner, 0x10_0000, 8192, 1), 0);
    assert_eq!(sys_mmap(&mut p.inner, 0x10_0000, 4096, 1), -1);
    assert_eq!(sys_mmap(&mut p.inner, 0x10_1000, 4096, 1), -1);
    assert_eq!(sys_mmap(&mut p.inner, 0x10_2000, 4096, 1), 0);
}

#[test]
fn munmap_refuses_bad_requests() {
    let mut p = process();
    assert_eq!(sys_mmap(&mut p.inner, 0x10_0000, 8192, 3), 0);
    assert_eq!(sys_munmap(&mut p.inner, 0x10_0001, 8192), -1);
    assert_eq!(sys_munmap(&mut p.inner, 0x10_0000, 0), -1);
    assert_eq!(sys_munmap(&mut p.inner, 0x10_0000, 100), -1);
    assert_eq!(sys_munmap(&mut p.inner, 0x10_0000, 4096), -1);
    assert_eq!(sys_munmap(&mut p.inner, 0x20_0000, 8192), -1);
    assert!(p.inner.memory_set.translate(0x100).is_some());
}

#[test]
fn munmap_undoes_mmap() {
    let mut p = process();
    assert_eq!(sys_mmap(&mut p.inner, 0x10_0000, 5000, 7), 0);
    assert_eq!(sys_munmap(&mut p.inner, 0x10_0000, 8192), 0);
    assert!(p.inner.memory_set.translate(0x100).is_none());
    assert!(p.inner.memory_set.translate(0x101).is_none());
    assert!(p.inner.mmap_areas.is_empty());
    // the stack is still there and the region can be mapped again
    assert!(p.inner.memory_set.translate(0x10).is_some());
    assert_eq!(sys_mmap(&mut p.inner, 0x10_0000, 8192, 7), 0);
}

#[test]
fn sbrk_grows_and_shrinks_the_heap() {
    let mut p = process();
    let bottom = p.inner.heap_bottom;
    assert_eq!(bottom, 0x1_2000);
    assert!(p.inner.memory_set.translate(0x12).is_none());
    assert_eq!(sys_sbrk(&mut p, 4096), bottom as isize);
    assert_eq!(p.inner.program_brk, bottom + 4096);
    assert!(p.inner.memory_set.translate(0x12).is_some());
    assert_eq!(sys_sbrk(&mut p, -4096), (bottom + 4096) as isize);
    assert_eq!(p.inner.program_brk, bottom);
    assert!(p.inner.memory_set.translate(0x12).is_none());
}

#[test]
fn sbrk_refuses_to_go_below_heap_bottom() {
    let mut p = process();
    assert_eq!(sys_sbrk(&mut p, -1), -1);
    assert_eq!(p.inner.program_brk, p.inner.heap_bottom);
    assert_eq!(sys_sbrk(&mut p, 0), p.inner.heap_bottom as isize);
}

#[test]
fn sbrk_partial_page_maps_that_page() {
    let mut p = process();
    assert_eq!(sys_sbrk(&mut p, 10), 0x1_2000);
    assert!(p.inner.memory_set.translate(0x12).is_some());
    assert!(p.inner.memory_set.translate(0x13).is_none());
    assert_eq!(p.getpid(), 1);
    assert_eq!(PAGE_SIZE, 4096);
}
