use taskcore::config::{BIG_STRIDE, INIT_STRIDE};
use taskcore::memory::{MapPermission, MemorySet, PAGE_SIZE};
use taskcore::scheduler::{Processor, TaskManager};
use taskcore::syscall::{sys_exit, sys_get_time, sys_mmap, sys_munmap, sys_sbrk, sys_task_info, sys_yield};
use taskcore::task::{KernelStack, LoadedImage, PidHandle, TaskControlBlock, TaskStatus};

const RW: MapPermission = MapPermission { readable: true, writable: true, executable: false, user: true };

fn task(pid: usize) -> TaskControlBlock {
    let mut ms = MemorySet::new_bare(pid + 100);
    ms.insert_framed_area(0x10, 0x12, RW);
    ms.insert_framed_area(0x20, 0x20, RW);
    let image = LoadedImage { memory_set: ms, user_sp: 0x20 * PAGE_SIZE, entry_point: 0x10000 };
    TaskControlBlock::new(image, PidHandle(pid), KernelStack { top: 0x9000_0000 - pid * 0x3000 })
}

fn current_pid(p: &Processor) -> Option<usize> {
    p.current().map(|t| t.getpid())
}

fn current_stride(p: &Processor) -> isize {
    p.current().map(|t| t.get_stride()).unwrap()
}

#[test]
fn lone_task_stride_grows_by_pass() {
    for prio in [1isize, 2, 3, 16, 1000] {
        let mut m = TaskManager::new();
        let mut t = task(1);
        assert!(t.set_priority(prio));
        m.add(t);
        let mut expected = INIT_STRIDE;
        for _ in 0..5 {
            let t = m.fetch().unwrap();
            expected += BIG_STRIDE / prio;
            assert_eq!(t.get_stride(), expected);
            m.add(t);
        }
    }
}

#[test]
fn equal_priority_tasks_alternate() {
    let mut m = TaskManager::new();
    m.add(task(1));
    m.add(task(2));
    let mut picks = Vec::new();
    for _ in 0..8 {
        let t = m.fetch().unwrap();
        picks.push(t.getpid());
        m.add(t);
    }
    assert_eq!(picks, vec![1, 2, 1, 2, 1, 2, 1, 2]);
}

#[test]
fn higher_priority_runs_more_often() {
    let mut m = TaskManager::new();
    let mut a = task(1);
    assert!(a.set_priority(4));
    let mut b = task(2);
    assert!(b.set_priority(1));
    m.add(a);
    m.add(b);
    let mut count_a = 0;
    for _ in 0..10 {
        let t = m.fetch().unwrap();
        if t.getpid() == 1 {
            count_a += 1;
        }
        m.add(t);
    }
    assert_eq!(count_a, 8);
}

#[test]
fn fetch_from_empty_queue() {
    let mut m = TaskManager::new();
    assert!(m.fetch().is_none());
    assert_eq!(m.len(), 0);
}

#[test]
fn smallest_stride_is_picked() {
    let mut m = TaskManager::new();
    let mut a = task(1);
    a.set_stride(50);
    let mut b = task(2);
    b.set_stride(10);
    let mut c = task(3);
    c.set_stride(10);
    m.add(a);
    m.add(b);
    m.add(c);
    let t = m.fetch().unwrap();
    assert_eq!(t.getpid(), 2);
    assert_eq!(t.get_stride(), 10 + BIG_STRIDE / 16);
    assert_eq!(m.len(), 2);
}

#[test]
fn processor_runs_yields_and_exits() {
    let mut p = Processor::new(TaskManager::new());
    p.add_task(task(1));
    p.add_task(task(2));
    assert!(p.run_next(1000));
    assert_eq!(current_pid(&p), Some(1));
    assert_eq!(current_stride(&p), BIG_STRIDE / 16);
    assert_eq!(sys_yield(&mut p, 2000), 0);
    assert_eq!(current_pid(&p), Some(2));
    assert_eq!(p.ready_count(), 1);
    sys_exit(&mut p, 3, 3000);
    assert_eq!(current_pid(&p), Some(1));
    assert_eq!(p.zombie_count(), 1);
    assert_eq!(p.zombie_exit_code(0), 3);
    sys_exit(&mut p, -1, 4000);
    assert_eq!(current_pid(&p), None);
    assert_eq!(p.zombie_count(), 2);
    assert_eq!(p.zombie_exit_code(0), 3);
    assert_eq!(p.zombie_exit_code(1), -1);
    assert!(!p.run_next(5000));
}

#[test]
fn running_task_has_start_time_and_status() {
    let mut p = Processor::new(TaskManager::new());
    p.add_task(task(1));
    p.add_task(task(2));
    assert!(p.run_next(1500));
    let t = p.current_mut().unwrap();
    assert_eq!(t.get_start_time(), Some(1500));
    assert!(t.inner_exclusive_access().task_status == TaskStatus::Running);
    assert_eq!(sys_yield(&mut p, 2500), 0);
    assert_eq!(sys_yield(&mut p, 3500), 0);
    assert_eq!(current_pid(&p), Some(1));
    assert_eq!(p.current().unwrap().get_start_time(), Some(1500));
}

#[test]
fn task_info_before_first_run_fails() {
    let t = task(1);
    assert!(sys_task_info(&t, 10_000).is_none());
}

#[test]
fn task_info_after_run_reports_elapsed_time() {
    let mut p = Processor::new(TaskManager::new());
    let mut t = task(1);
    t.increase_syscall_times(410);
    p.add_task(t);
    assert!(p.run_next(2_000));
    let info = sys_task_info(p.current().unwrap(), 1_502_999).unwrap();
    assert!(info.status == TaskStatus::Running);
    assert_eq!(info.time, 1500);
    assert_eq!(info.syscall_times[410], 1);
    let early = sys_task_info(p.current().unwrap(), 1_000).unwrap();
    assert_eq!(early.time, 0);
}

#[test]
fn get_time_splits_microseconds() {
    let tv = sys_get_time(3_250_017);
    assert_eq!(tv.sec, 3);
    assert_eq!(tv.usec, 250_017);
    let zero = sys_get_time(0);
    assert_eq!((zero.sec, zero.usec), (0, 0));
}

#[test]
fn mmap_and_munmap_syscalls() {
    let mut t = task(1);
    assert_eq!(sys_mmap(&mut t, 0x40001, 4096, 3), -1);
    assert_eq!(sys_mmap(&mut t, 0x40000, 4096, 0), -1);
    assert_eq!(sys_mmap(&mut t, 0x40000, 4096, 3), 0);
    assert_eq!(sys_mmap(&mut t, 0x40000, 4096, 3), -1);
    assert_eq!(sys_mmap(&mut t, usize::MAX - 4095, 4096, 3), -1);
    assert_eq!(sys_munmap(&mut t, 0x40010, 4096), -1);
    assert_eq!(sys_munmap(&mut t, 0x40000, 4096), 0);
    assert_eq!(sys_munmap(&mut t, 0x40000, 4096), -1);
}

#[test]
fn sbrk_syscall() {
    let mut t = task(1);
    assert_eq!(sys_sbrk(&mut t, 4096), 0x20000);
    assert_eq!(sys_sbrk(&mut t, 0), 0x21000);
    assert_eq!(sys_sbrk(&mut t, -8192), -1);
    assert_eq!(sys_sbrk(&mut t, -4096), 0x21000);
    assert_eq!(t.inner_exclusive_access().program_brk, 0x20000);
}
