use taskcore::config::{BIG_STRIDE, INIT_PRIORITY, INIT_STRIDE, MAX_SYSCALL_NUM};
use taskcore::memory::{MapPermission, MemorySet, VirtPageNum, PAGE_SIZE};
use taskcore::task::{KernelStack, LoadedImage, PidHandle, TaskControlBlock, TaskStatus};

const RW: MapPermission = MapPermission { readable: true, writable: true, executable: false, user: true };
const RX: MapPermission = MapPermission { readable: true, writable: false, executable: true, user: true };

/// A loaded image: code at pages 0x10..0x12, an empty heap region at page 0x20,
/// user stack top at 0x20000.
fn image(root: usize, entry: usize) -> LoadedImage {
    let mut ms = MemorySet::new_bare(root);
    ms.insert_framed_area(0x10, 0x12, RX);
    ms.insert_framed_area(0x20, 0x20, RW);
    LoadedImage { memory_set: ms, user_sp: 0x20 * PAGE_SIZE, entry_point: entry }
}

fn root_task() -> TaskControlBlock {
    TaskControlBlock::new(image(100, 0x10000), PidHandle(0), KernelStack { top: 0x9000_0000 })
}

#[test]
fn new_task_defaults() {
    let mut t = root_task();
    assert_eq!(t.getpid(), 0);
    assert_eq!(t.get_start_time(), None);
    assert_eq!(t.get_stride(), INIT_STRIDE);
    assert_eq!(t.get_priority(), INIT_PRIORITY);
    let times = t.get_syscall_times();
    assert_eq!(times.len(), MAX_SYSCALL_NUM);
    assert!(times.iter().all(|c| *c == 0));
    assert_eq!(t.get_user_token(), 0x8000_0000_0000_0000u64 | 100);
    let inner = t.inner_exclusive_access();
    assert!(inner.task_status == TaskStatus::Ready);
    assert!(!inner.is_zombie());
    assert_eq!(inner.heap_bottom, 0x20000);
    assert_eq!(inner.program_brk, 0x20000);
    assert_eq!(inner.base_size, 0x20000);
    assert_eq!(inner.parent, None);
    assert!(inner.children.is_empty());
    assert_eq!(inner.task_cx.sp, 0x9000_0000);
    let cx = inner.get_trap_cx();
    assert_eq!(cx.sepc, 0x10000);
    assert_eq!(cx.user_sp, 0x20000);
    assert_eq!(cx.kernel_sp, 0x9000_0000);
}

#[test]
fn exec_replaces_image_and_keeps_identity() {
    let mut t = root_task();
    t.increase_syscall_times(64);
    let mut ms = MemorySet::new_bare(7);
    ms.insert_framed_area(0x30, 0x31, RX);
    t.exec(LoadedImage { memory_set: ms, user_sp: 0x40000, entry_point: 0x30000 });
    assert_eq!(t.getpid(), 0);
    assert_eq!(t.get_user_token(), 0x8000_0000_0000_0000u64 | 7);
    assert_eq!(t.get_syscall_times()[64], 1);
    let inner = t.inner_exclusive_access();
    assert_eq!(inner.memory_set.region_count(), 1);
    assert_eq!(inner.trap_cx.sepc, 0x30000);
    assert_eq!(inner.trap_cx.user_sp, 0x40000);
    assert_eq!(inner.trap_cx.kernel_sp, 0x9000_0000);
    assert_eq!(inner.base_size, 0x40000);
}

#[test]
fn fork_copies_space_and_accounting() {
    let mut parent = root_task();
    parent.increase_syscall_times(3);
    parent.set_priority(5);
    parent.set_stride(77);
    assert!(parent.inner_exclusive_access().memory_set.write_byte(0x10005, 42));
    let mut child = parent.fork(PidHandle(1), KernelStack { top: 0x8000_0000 }, 200);
    assert_eq!(child.getpid(), 1);
    assert_eq!(child.get_stride(), INIT_STRIDE);
    assert_eq!(child.get_priority(), INIT_PRIORITY);
    assert_eq!(child.get_syscall_times()[3], 1);
    assert_eq!(child.get_user_token(), 0x8000_0000_0000_0000u64 | 200);
    assert_eq!(parent.inner_exclusive_access().children, vec![1]);
    let ci = child.inner_exclusive_access();
    assert_eq!(ci.parent, Some(0));
    assert_eq!(ci.trap_cx.kernel_sp, 0x8000_0000);
    assert_eq!(ci.trap_cx.sepc, 0x10000);
    assert_eq!(ci.memory_set.read_byte(0x10005), Some(42));
    assert_eq!(ci.memory_set.region_count(), 2);
}

#[test]
fn fork_space_is_independent() {
    let mut parent = root_task();
    assert!(parent.inner_exclusive_access().memory_set.write_byte(0x10010, 7));
    let mut child = parent.fork(PidHandle(1), KernelStack { top: 0x8000_0000 }, 200);
    assert_eq!(child.inner_exclusive_access().memory_set.read_byte(0x10010), Some(7));
    assert!(parent.inner_exclusive_access().memory_set.write_byte(0x10010, 99));
    assert_eq!(parent.inner_exclusive_access().memory_set.read_byte(0x10010), Some(99));
    assert_eq!(child.inner_exclusive_access().memory_set.read_byte(0x10010), Some(7));
    assert!(child.inner_exclusive_access().memory_set.write_byte(0x11000, 5));
    assert_eq!(parent.inner_exclusive_access().memory_set.read_byte(0x11000), Some(0));
}

#[test]
fn spawn_loads_new_image_and_inherits_heap() {
    let mut parent = root_task();
    assert_eq!(parent.change_program_brk(4096), Some(0x20000));
    parent.increase_syscall_times(9);
    let child_image = image(300, 0x12345);
    let mut child = parent.spawn(child_image, PidHandle(2), KernelStack { top: 0x7000_0000 });
    assert_eq!(child.getpid(), 2);
    assert_eq!(child.get_start_time(), None);
    assert_eq!(child.get_syscall_times()[9], 0);
    assert_eq!(child.get_stride(), INIT_STRIDE);
    assert_eq!(parent.inner_exclusive_access().children, vec![2]);
    let ci = child.inner_exclusive_access();
    assert_eq!(ci.parent, Some(0));
    assert_eq!(ci.heap_bottom, 0x20000);
    assert_eq!(ci.program_brk, 0x21000);
    assert_eq!(ci.trap_cx.sepc, 0x12345);
    assert_eq!(ci.trap_cx.kernel_sp, 0x7000_0000);
}

#[test]
fn brk_grows_and_shrinks_heap() {
    let mut t = root_task();
    assert_eq!(t.change_program_brk(10), Some(0x20000));
    assert_eq!(t.inner_exclusive_access().program_brk, 0x2000a);
    assert_eq!(t.inner_exclusive_access().memory_set.region(1), (0x20, 0x21, RW));
    assert_eq!(t.change_program_brk(8192), Some(0x2000a));
    assert_eq!(t.inner_exclusive_access().memory_set.region(1), (0x20, 0x23, RW));
    assert!(t.inner_exclusive_access().memory_set.write_byte(0x22000, 1));
    assert_eq!(t.change_program_brk(-8192), Some(0x2200a));
    assert_eq!(t.inner_exclusive_access().memory_set.region(1), (0x20, 0x21, RW));
    assert_eq!(t.inner_exclusive_access().memory_set.read_byte(0x22000), None);
    assert_eq!(t.change_program_brk(-10), Some(0x2000a));
    assert_eq!(t.inner_exclusive_access().program_brk, 0x20000);
    assert_eq!(t.inner_exclusive_access().memory_set.region(1), (0x20, 0x20, RW));
}

#[test]
fn brk_below_heap_bottom_fails() {
    let mut t = root_task();
    assert_eq!(t.change_program_brk(-1), None);
    assert_eq!(t.inner_exclusive_access().program_brk, 0x20000);
    assert_eq!(t.change_program_brk(100), Some(0x20000));
    assert_eq!(t.change_program_brk(-101), None);
    assert_eq!(t.inner_exclusive_access().program_brk, 0x20064);
    assert_eq!(t.inner_exclusive_access().memory_set.region(1), (0x20, 0x21, RW));
}

#[test]
fn brk_into_mapped_region_fails() {
    let mut t = root_task();
    assert!(t.mmap(0x21000, 4096, 3).is_some());
    assert_eq!(t.change_program_brk(4097), None);
    assert_eq!(t.inner_exclusive_access().program_brk, 0x20000);
    assert_eq!(t.change_program_brk(4096), Some(0x20000));
}

#[test]
fn mmap_maps_zeroed_region() {
    let mut t = root_task();
    let r = t.mmap(0x40000, 5000, 0b011);
    assert_eq!(r, Some((VirtPageNum(0x40), VirtPageNum(0x42))));
    let inner = t.inner_exclusive_access();
    assert_eq!(inner.memory_set.region_count(), 3);
    assert_eq!(inner.memory_set.region(2), (0x40, 0x42, RW));
    assert_eq!(inner.memory_set.read_byte(0x41fff), Some(0));
    assert_eq!(inner.memory_set.read_byte(0x42000), None);
}

#[test]
fn mmap_permission_bits() {
    let mut t = root_task();
    assert!(t.mmap(0x40000, 4096, 0b100).is_some());
    assert!(t.mmap(0x50000, 4096, 0b001).is_some());
    assert!(t.mmap(0x60000, 4096, 0b111).is_some());
    let inner = t.inner_exclusive_access();
    let x = inner.memory_set.region(2).2;
    assert!(x.executable && !x.readable && !x.writable && x.user);
    let r = inner.memory_set.region(3).2;
    assert!(r.readable && !r.writable && !r.executable && r.user);
    let all = inner.memory_set.region(4).2;
    assert!(all.readable && all.writable && all.executable && all.user);
}

#[test]
fn mmap_rejects_bad_arguments() {
    let mut t = root_task();
    assert_eq!(t.mmap(0x40000, 4096, 0), None);
    assert_eq!(t.mmap(0x40000, 4096, 8), None);
    assert_eq!(t.mmap(0x40000, 4096, 0b1001), None);
    assert_eq!(t.mmap(0x40001, 4096, 1), None);
    assert_eq!(t.mmap(0x10000, 4096, 1), None);
    assert_eq!(t.mmap(0xf000, 4097, 1), None);
    assert_eq!(t.inner_exclusive_access().memory_set.region_count(), 2);
}

#[test]
fn mmap_high_addresses() {
    let mut t = root_task();
    assert_eq!(t.mmap(0x4000_0000, 4096, 3), Some((VirtPageNum(0x40000), VirtPageNum(0x40001))));
    assert_eq!(t.mmap(0x3fff_f000, 0x2000, 1), None);
    assert_eq!(t.mmap(0x7f_ffff_f000, 4096, 1), Some((VirtPageNum(0x7ff_ffff), VirtPageNum(0x800_0000))));
    assert_eq!(t.inner_exclusive_access().memory_set.region_count(), 4);
}

#[test]
fn mmap_then_munmap_restores_space() {
    let mut t = root_task();
    assert!(t.mmap(0x40000, 8192, 2).is_some());
    assert!(t.munmap(0x40000, 8192));
    let inner = t.inner_exclusive_access();
    assert_eq!(inner.memory_set.region_count(), 2);
    assert_eq!(inner.memory_set.region(0), (0x10, 0x12, RX));
    assert_eq!(inner.memory_set.region(1), (0x20, 0x20, RW));
    assert_eq!(inner.memory_set.read_byte(0x40000), None);
}

#[test]
fn munmap_requires_exact_bounds_and_alignment() {
    let mut t = root_task();
    assert!(t.mmap(0x40000, 8192, 2).is_some());
    assert!(!t.munmap(0x40000, 4096));
    assert!(!t.munmap(0x40001, 8192));
    assert!(!t.munmap(0x41000, 4096));
    assert_eq!(t.inner_exclusive_access().memory_set.region_count(), 3);
    assert!(t.munmap(0x40000, 8000));
    assert_eq!(t.inner_exclusive_access().memory_set.region_count(), 2);
}

#[test]
fn syscall_counters() {
    let mut t = root_task();
    t.increase_syscall_times(169);
    t.increase_syscall_times(169);
    assert_eq!(t.get_syscall_times()[169], 2);
    t.set_syscall_times(169, 40);
    assert_eq!(t.get_syscall_times()[169], 40);
    t.set_syscall_times(1, u32::MAX);
    t.increase_syscall_times(1);
    assert_eq!(t.get_syscall_times()[1], u32::MAX);
}

#[test]
fn priority_must_be_positive() {
    let mut t = root_task();
    assert!(!t.set_priority(0));
    assert!(!t.set_priority(-3));
    assert!(!t.set_priority(BIG_STRIDE + 1));
    assert_eq!(t.get_priority(), INIT_PRIORITY);
    assert!(t.set_priority(1));
    assert_eq!(t.get_priority(), 1);
    t.set_stride(12);
    assert_eq!(t.get_stride(), 12);
}
