//! System calls on the task subsystem, once the dispatcher has read their
//! arguments from user space: they return the status that goes back to the
//! caller and the values that the dispatcher copies out.
use crate::memory::{PAGE_SIZE, USER_END};
use crate::scheduler::{candidates, exited_with, runs_pick_of, Processor};
use crate::task::{
    mmap_ok, munmap_ok, munmap_view, mmap_view, resized_space, same_but_space, TaskControlBlock,
    TaskStatus,
};
use vstd::prelude::*;

verus! {

/// Wall-clock time split into seconds and microseconds.
#[derive(Clone, Copy, Debug, PartialEq, Eq, Structural)]
pub struct TimeVal {
    pub sec: usize,
    pub usec: usize,
}

/// What `sys_task_info` reports of the running task.
pub struct TaskInfo {
    /// Lifecycle state
    pub status: TaskStatus,
    /// Invocations of each system call
    pub syscall_times: Vec<u32>,
    /// Milliseconds since the task was first scheduled
    pub time: usize,
}

/// Milliseconds from `start_us` to `now_us`; zero if the clock reads earlier
/// than the start.
pub open spec fn elapsed_ms(start_us: usize, now_us: usize) -> usize {
    if now_us >= start_us {
        ((now_us - start_us) / 1000) as usize
    } else {
        0
    }
}

/// The running task exits with `exit_code` and the next ready task runs.
pub fn sys_exit(processor: &mut Processor, exit_code: i32, now_us: usize)
    requires
        old(processor).wf(),
    ensures
        final(processor).wf(),
        final(processor).zombies() == match old(processor).current_task() {
            Some(t) => old(processor).zombies().push(exited_with(t, exit_code)),
            None => old(processor).zombies(),
        },
        runs_pick_of(
            old(processor).ready().queue(),
            now_us,
            final(processor).current_task(),
            final(processor).ready().queue(),
        ),
{
    processor.exit_current_and_run_next(exit_code, now_us);
}

/// The running task yields the processor to the next ready task; returns 0.
pub fn sys_yield(processor: &mut Processor, now_us: usize) -> (r: isize)
    requires
        old(processor).wf(),
    ensures
        r == 0,
        final(processor).wf(),
        final(processor).zombies() == old(processor).zombies(),
        runs_pick_of(
            candidates(old(processor).ready().queue(), old(processor).current_task()),
            now_us,
            final(processor).current_task(),
            final(processor).ready().queue(),
        ),
{
    processor.suspend_current_and_run_next(now_us);
    0
}

/// The time `us` microseconds as seconds and microseconds.
pub fn sys_get_time(us: usize) -> (r: TimeVal)
    ensures
        r.sec == us / 1_000_000,
        r.usec == us % 1_000_000,
{
    TimeVal { sec: us / 1_000_000, usec: us % 1_000_000 }
}

/// Status, system call counts and running time of `task` at time `now_us`,
/// or `None` if it has never been scheduled.
pub fn sys_task_info(task: &TaskControlBlock, now_us: usize) -> (r: Option<TaskInfo>)
    ensures
        r is None <==> task.state().task_start_time is None,
        r matches Some(info) ==> {
            &&& info.status == TaskStatus::Running
            &&& info.syscall_times@ == task.state().task_syscall_times@
            &&& info.time == elapsed_ms(task.state().task_start_time.unwrap(), now_us)
        },
{
    let start_time = match task.get_start_time() {
        Some(start_time) => start_time,
        None => {
            return None;
        },
    };
    let time = if now_us >= start_time {
        (now_us - start_time) / 1000
    } else {
        0
    };
    Some(TaskInfo { status: TaskStatus::Running, syscall_times: task.get_syscall_times(), time })
}

/// Maps `[start, start + len)` for `task` with the rights of `port`; returns 0,
/// or -1 (with nothing changed) when the range ends past the last addressable
/// page or `mmap` refuses.
pub fn sys_mmap(task: &mut TaskControlBlock, start: usize, len: usize, port: usize) -> (r: isize)
    requires
        old(task).wf(),
    ensures
        final(task).wf(),
        final(task).pid == old(task).pid,
        same_but_space(final(task).state(), old(task).state()),
        final(task).state().program_brk == old(task).state().program_brk,
        r == 0 || r == -1,
        r == 0 <==> (start + len <= USER_END && mmap_ok(old(task).state().memory_set@, start, len, port)),
        r == 0 ==> final(task).state().memory_set@ == mmap_view(
            old(task).state().memory_set@,
            start,
            len,
            port,
        ),
        r == -1 ==> final(task).state().memory_set@ == old(task).state().memory_set@,
{
    if start / PAGE_SIZE * PAGE_SIZE != start || len > USER_END - start {
        return -1;
    }
    if task.mmap(start, len, port).is_some() {
        return 0;
    }
    -1
}

/// Unmaps the region `[start, start + len)` of `task`; returns 0, or -1 (with
/// nothing changed) when `munmap` refuses.
pub fn sys_munmap(task: &mut TaskControlBlock, start: usize, len: usize) -> (r: isize)
    requires
        old(task).wf(),
    ensures
        final(task).wf(),
        final(task).pid == old(task).pid,
        same_but_space(final(task).state(), old(task).state()),
        final(task).state().program_brk == old(task).state().program_brk,
        r == 0 || r == -1,
        r == 0 <==> munmap_ok(old(task).state().memory_set@, start, len),
        final(task).state().memory_set@ == munmap_view(old(task).state().memory_set@, start, len),
{
    if start / PAGE_SIZE * PAGE_SIZE != start {
        return -1;
    }
    if task.munmap(start, len) {
        0
    } else {
        -1
    }
}

/// Moves the break of `task` by `size` bytes; returns the previous break as a
/// signed status, or -1 (with nothing changed) when the move is refused.
pub fn sys_sbrk(task: &mut TaskControlBlock, size: i32) -> (r: isize)
    requires
        old(task).wf(),
    ensures
        final(task).wf(),
        final(task).pid == old(task).pid,
        same_but_space(final(task).state(), old(task).state()),
        match resized_space(
            old(task).state().memory_set@,
            old(task).state().heap_bottom,
            old(task).state().program_brk,
            size,
        ) {
            None => {
                &&& r == -1
                &&& final(task).state().program_brk == old(task).state().program_brk
                &&& final(task).state().memory_set@ == old(task).state().memory_set@
            },
            Some(v) => {
                &&& r == old(task).state().program_brk as isize
                &&& final(task).state().program_brk == old(task).state().program_brk + size
                &&& final(task).state().memory_set@ == v
            },
        },
{
    match task.change_program_brk(size) {
        Some(old_brk) => old_brk as isize,
        None => -1,
    }
}

} // verus!
