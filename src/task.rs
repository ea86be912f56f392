//! Task control blocks: identity, accounting, address space and the rules
//! for creating, replacing and resizing what a task owns.
use crate::config::{BIG_STRIDE, INIT_PRIORITY, INIT_STRIDE, MAX_SYSCALL_NUM};
use crate::memory::{
    grow_view, last_match, range_free, shrink_view, unmap_view, zero_area, AreaView,
    MapPermission, MemorySet, VirtPageNum, PAGE_SIZE, USER_END,
};
use vstd::prelude::*;

verus! {

/// Lifecycle state of a task.
#[derive(Clone, Copy, Debug, PartialEq, Eq, Structural)]
pub enum TaskStatus {
    /// not yet set up
    UnInit,
    /// ready to run
    Ready,
    /// running
    Running,
    /// exited, waiting to be reaped
    Zombie,
}

/// A process identifier handed out by the pid allocator.
#[derive(Clone, Copy, Debug, PartialEq, Eq, Structural)]
pub struct PidHandle(pub usize);

/// A kernel stack handed out by the stack allocator, named by its top address.
#[derive(Clone, Copy, Debug, PartialEq, Eq, Structural)]
pub struct KernelStack {
    pub top: usize,
}

impl KernelStack {
    /// Address just above the stack.
    pub fn get_top(&self) -> (r: usize)
        ensures
            r == self.top,
    {
        self.top
    }
}

/// Saved kernel-side context: resumes on the return-to-user path with stack
/// pointer `sp`.
#[derive(Clone, Copy, Debug, PartialEq, Eq, Structural)]
pub struct TaskContext {
    pub sp: usize,
}

impl TaskContext {
    /// A context that enters the return-to-user path on the kernel stack whose
    /// top is `kstack_ptr`.
    pub fn goto_trap_return(kstack_ptr: usize) -> (r: Self)
        ensures
            r.sp == kstack_ptr,
    {
        TaskContext { sp: kstack_ptr }
    }
}

/// The part of the trap context that this core fills: where user code
/// starts, its stack, and the kernel stack used on the next trap.
#[derive(Clone, Copy, Debug, PartialEq, Eq, Structural)]
pub struct TrapContext {
    pub sepc: usize,
    pub user_sp: usize,
    pub kernel_sp: usize,
}

impl TrapContext {
    /// The context for the first entry into user code at `entry`.
    pub fn app_init_context(entry: usize, sp: usize, kernel_sp: usize) -> (r: Self)
        ensures
            r == (TrapContext { sepc: entry, user_sp: sp, kernel_sp }),
    {
        TrapContext { sepc: entry, user_sp: sp, kernel_sp }
    }
}

/// A program image once loaded: its address space, the top of its user
/// stack and its entry point.
pub struct LoadedImage {
    pub memory_set: MemorySet,
    pub user_sp: usize,
    pub entry_point: usize,
}

impl LoadedImage {
    /// The space is well formed and the stack top is an address that a
    /// region can reach.
    pub open spec fn wf(&self) -> bool {
        &&& self.memory_set.wf()
        &&& self.user_sp <= USER_END
    }
}

/// Mutable state of a task.
pub struct TaskControlBlockInner {
    /// Trap context used on the next entry to user code
    pub trap_cx: TrapContext,
    /// Top of the user stack when the image was loaded
    pub base_size: usize,
    /// Saved kernel-side context
    pub task_cx: TaskContext,
    /// Lifecycle state
    pub task_status: TaskStatus,
    /// Time in microseconds when the task was first scheduled
    pub task_start_time: Option<usize>,
    /// Invocations of each system call
    pub task_syscall_times: Vec<u32>,
    /// User address space
    pub memory_set: MemorySet,
    /// Pid of the task that created this one; not an owner
    pub parent: Option<usize>,
    /// Pids of the tasks this one created and has not reaped
    pub children: Vec<usize>,
    /// Set on exit, read by the parent when it reaps
    pub exit_code: i32,
    /// Lowest address of the heap
    pub heap_bottom: usize,
    /// Current end of the heap
    pub program_brk: usize,
    /// Accumulated scheduling cost
    pub stride: isize,
    /// Scheduling weight; higher runs more often
    pub priority: isize,
}

/// The inner state is consistent: a well-formed space, one counter per
/// system call, the break above the heap bottom and within reach of a region, and
/// a priority in `1..=BIG_STRIDE`.
pub open spec fn inner_wf(i: TaskControlBlockInner) -> bool {
    &&& i.memory_set.wf()
    &&& i.task_syscall_times@.len() == MAX_SYSCALL_NUM
    &&& i.heap_bottom <= i.program_brk <= USER_END
    &&& 1 <= i.priority <= BIG_STRIDE
}

/// `a` and `b` agree on everything but the address space and the break.
pub open spec fn same_but_space(a: TaskControlBlockInner, b: TaskControlBlockInner) -> bool {
    &&& a.trap_cx == b.trap_cx
    &&& a.base_size == b.base_size
    &&& a.task_cx == b.task_cx
    &&& a.task_status == b.task_status
    &&& a.task_start_time == b.task_start_time
    &&& a.task_syscall_times@ == b.task_syscall_times@
    &&& a.parent == b.parent
    &&& a.children@ == b.children@
    &&& a.exit_code == b.exit_code
    &&& a.heap_bottom == b.heap_bottom
    &&& a.stride == b.stride
    &&& a.priority == b.priority
    &&& a.memory_set.root() == b.memory_set.root()
}

/// `a` and `b` agree on everything but the counters, stride and priority.
pub open spec fn same_but_accounting(a: TaskControlBlockInner, b: TaskControlBlockInner) -> bool {
    &&& a.trap_cx == b.trap_cx
    &&& a.base_size == b.base_size
    &&& a.task_cx == b.task_cx
    &&& a.task_status == b.task_status
    &&& a.task_start_time == b.task_start_time
    &&& a.memory_set@ == b.memory_set@
    &&& a.memory_set.root() == b.memory_set.root()
    &&& a.parent == b.parent
    &&& a.children@ == b.children@
    &&& a.exit_code == b.exit_code
    &&& a.heap_bottom == b.heap_bottom
    &&& a.program_brk == b.program_brk
}

/// `a` and `b` agree on everything but the trap context.
pub open spec fn same_but_trap(a: TaskControlBlockInner, b: TaskControlBlockInner) -> bool {
    &&& a.base_size == b.base_size
    &&& a.task_cx == b.task_cx
    &&& a.task_status == b.task_status
    &&& a.task_start_time == b.task_start_time
    &&& a.task_syscall_times@ == b.task_syscall_times@
    &&& a.memory_set@ == b.memory_set@
    &&& a.memory_set.root() == b.memory_set.root()
    &&& a.parent == b.parent
    &&& a.children@ == b.children@
    &&& a.exit_code == b.exit_code
    &&& a.heap_bottom == b.heap_bottom
    &&& a.program_brk == b.program_brk
    &&& a.stride == b.stride
    &&& a.priority == b.priority
}

/// `a` and `b` agree on everything but the list of children.
pub open spec fn same_but_children(a: TaskControlBlockInner, b: TaskControlBlockInner) -> bool {
    &&& a.trap_cx == b.trap_cx
    &&& a.base_size == b.base_size
    &&& a.task_cx == b.task_cx
    &&& a.task_status == b.task_status
    &&& a.task_start_time == b.task_start_time
    &&& a.task_syscall_times@ == b.task_syscall_times@
    &&& a.memory_set@ == b.memory_set@
    &&& a.memory_set.root() == b.memory_set.root()
    &&& a.parent == b.parent
    &&& a.exit_code == b.exit_code
    &&& a.heap_bottom == b.heap_bottom
    &&& a.program_brk == b.program_brk
    &&& a.stride == b.stride
    &&& a.priority == b.priority
}

/// First page at or above address `va`.
pub open spec fn page_ceil(va: int) -> int {
    if va % PAGE_SIZE as int == 0 {
        va / PAGE_SIZE as int
    } else {
        va / PAGE_SIZE as int + 1
    }
}

/// A permission mask of `mmap`: some of bit 0 (read), bit 1 (write) and
/// bit 2 (execute), and no other bit.
pub open spec fn valid_port(port: usize) -> bool {
    1 <= port <= 7
}

/// The rights that a valid mask asks for, always user-accessible.
pub open spec fn perm_of(port: usize) -> MapPermission {
    MapPermission {
        readable: port % 2 == 1,
        writable: (port / 2) % 2 == 1,
        executable: (port / 4) % 2 == 1,
        user: true,
    }
}

/// Whether `mmap(start, len, port)` succeeds on space `v`: a valid mask, a
/// page-aligned start, and a range free of every region.
pub open spec fn mmap_ok(v: Seq<AreaView>, start: usize, len: usize, port: usize) -> bool {
    &&& valid_port(port)
    &&& start % PAGE_SIZE == 0
    &&& range_free(v, (start / PAGE_SIZE) as usize, page_ceil(start + len) as usize)
}

/// The space after a successful `mmap(start, len, port)` on `v`.
pub open spec fn mmap_view(v: Seq<AreaView>, start: usize, len: usize, port: usize) -> Seq<AreaView> {
    v.push(
        zero_area((start / PAGE_SIZE) as usize, page_ceil(start + len) as usize, perm_of(port)),
    )
}

/// Whether `munmap(start, len)` succeeds on `v`: an aligned start and a region
/// with exactly these page bounds.
pub open spec fn munmap_ok(v: Seq<AreaView>, start: usize, len: usize) -> bool {
    &&& start % PAGE_SIZE == 0
    &&& start + len <= usize::MAX
    &&& last_match(v, (start / PAGE_SIZE) as usize, page_ceil(start + len) as usize) >= 0
}

/// The space after `munmap(start, len)` on `v`.
pub open spec fn munmap_view(v: Seq<AreaView>, start: usize, len: usize) -> Seq<AreaView> {
    if munmap_ok(v, start, len) {
        unmap_view(v, (start / PAGE_SIZE) as usize, page_ceil(start + len) as usize)
    } else {
        v
    }
}

/// The space after moving the break from `brk` by `size` on a heap that
/// starts at `heap_bottom`, or `None` if the move is refused: the new break
/// would fall below the heap bottom or past the last addressable page, or the
/// space cannot grow or shrink the heap region to it.
pub open spec fn resized_space(v: Seq<AreaView>, heap_bottom: usize, brk: usize, size: i32) -> Option<
    Seq<AreaView>,
> {
    let nb = brk + size;
    if nb < heap_bottom || nb > USER_END {
        None
    } else if size < 0 {
        shrink_view(v, (heap_bottom / PAGE_SIZE) as usize, page_ceil(nb) as usize)
    } else {
        grow_view(v, (heap_bottom / PAGE_SIZE) as usize, page_ceil(nb) as usize)
    }
}

/// Mapping `[start, start + len)` and then unmapping the same range gives back
/// the address space exactly as it was before the mapping.
pub proof fn lemma_mmap_munmap_round_trip(v: Seq<AreaView>, start: usize, len: usize, port: usize)
    requires
        crate::memory::space_wf(v),
        start + len <= USER_END,
        mmap_ok(v, start, len, port),
    ensures
        munmap_ok(mmap_view(v, start, len, port), start, len),
        munmap_view(mmap_view(v, start, len, port), start, len) == v,
{
    let m = mmap_view(v, start, len, port);
    let s = (start / PAGE_SIZE) as usize;
    let e = page_ceil(start + len) as usize;
    assert(m.drop_last() =~= v);
    assert(last_match(m, s, e) == v.len());
    assert(m.remove(v.len() as int) =~= v);
}

/// A break move that would take the break below the heap bottom is refused,
/// so `change_program_brk` leaves the break and the space as they were.
pub proof fn lemma_brk_below_heap_bottom(v: Seq<AreaView>, heap_bottom: usize, brk: usize, size: i32)
    requires
        brk + size < heap_bottom,
    ensures
        resized_space(v, heap_bottom, brk, size) is None,
{
}

/// First page at or above `va`.
fn ceil_page(va: usize) -> (r: usize)
    ensures
        r == page_ceil(va as int),
{
    if va % PAGE_SIZE == 0 {
        va / PAGE_SIZE
    } else {
        va / PAGE_SIZE + 1
    }
}

/// A vector of `MAX_SYSCALL_NUM` zero counters.
fn zero_counters() -> (r: Vec<u32>)
    ensures
        r@ == Seq::new(MAX_SYSCALL_NUM as nat, |i: int| 0u32),
{
    let mut r: Vec<u32> = Vec::new();
    while r.len() < MAX_SYSCALL_NUM
        invariant
            r.len() <= MAX_SYSCALL_NUM,
            forall|i: int| 0 <= i < r.len() ==> r@[i] == 0u32,
        decreases MAX_SYSCALL_NUM - r.len(),
    {
        r.push(0u32);
    }
    assert(r@ =~= Seq::new(MAX_SYSCALL_NUM as nat, |i: int| 0u32));
    r
}

/// A copy of a vector of counters.
fn copy_counters(v: &Vec<u32>) -> (r: Vec<u32>)
    ensures
        r@ == v@,
{
    let mut r: Vec<u32> = Vec::new();
    let mut i: usize = 0;
    while i < v.len()
        invariant
            i <= v.len(),
            r@ == v@.take(i as int),
        decreases v.len() - i,
    {
        r.push(v[i]);
        i += 1;
        assert(r@ =~= v@.take(i as int));
    }
    assert(r@ =~= v@);
    r
}

impl TaskControlBlockInner {
    /// The trap context, for filling before the next entry to user code.
    pub fn get_trap_cx(&mut self) -> (r: &mut TrapContext)
        ensures
            *r == old(self).trap_cx,
            final(self).trap_cx == *final(r),
            same_but_trap(*final(self), *old(self)),
    {
        &mut self.trap_cx
    }

    /// The token of the task's address space.
    pub fn get_user_token(&self) -> (r: u64)
        ensures
            r == crate::memory::satp_of(self.memory_set.root()),
    {
        self.memory_set.token()
    }

    fn get_status(&self) -> (r: TaskStatus)
        ensures
            r == self.task_status,
    {
        self.task_status
    }

    /// Whether the task has exited and waits to be reaped.
    pub fn is_zombie(&self) -> (r: bool)
        ensures
            r == (self.task_status == TaskStatus::Zombie),
    {
        self.get_status() == TaskStatus::Zombie
    }
}

/// A task: its pid and kernel stack, fixed for its lifetime, and its mutable
/// state, reached only through `&mut` borrows of the block.
pub struct TaskControlBlock {
    /// Process identifier
    pub pid: PidHandle,
    /// Kernel stack used while the task runs in the kernel
    pub kernel_stack: KernelStack,
    /// Mutable state; borrow it through `inner_exclusive_access`
    pub inner: TaskControlBlockInner,
}

impl TaskControlBlock {
    /// The mutable state.
    pub open spec fn state(&self) -> TaskControlBlockInner {
        self.inner
    }

    /// The state is consistent.
    pub open spec fn wf(&self) -> bool {
        inner_wf(self.state())
    }

    /// Exclusive access to the mutable state; it is released when the borrow ends.
    pub fn inner_exclusive_access(&mut self) -> (r: &mut TaskControlBlockInner)
        ensures
            *r == old(self).state(),
            final(self).state() == *final(r),
            final(self).pid == old(self).pid,
            final(self).kernel_stack == old(self).kernel_stack,
    {
        &mut self.inner
    }

    /// The token of the task's address space.
    pub fn get_user_token(&self) -> (r: u64)
        ensures
            r == crate::memory::satp_of(self.state().memory_set.root()),
    {
        self.inner.get_user_token()
    }

    /// Creates the first task from a loaded image: Ready, never scheduled,
    /// counters zeroed, heap empty at the top of the user stack, default stride
    /// and priority, no parent and no children.
    pub fn new(image: LoadedImage, pid: PidHandle, kernel_stack: KernelStack) -> (r: Self)
        requires
            image.wf(),
        ensures
            r.wf(),
            r.pid == pid,
            r.kernel_stack == kernel_stack,
            r.state().memory_set@ == image.memory_set@,
            r.state().memory_set.root() == image.memory_set.root(),
            r.state().trap_cx == (TrapContext {
                sepc: image.entry_point,
                user_sp: image.user_sp,
                kernel_sp: kernel_stack.top,
            }),
            r.state().task_cx == (TaskContext { sp: kernel_stack.top }),
            r.state().base_size == image.user_sp,
            r.state().task_status == TaskStatus::Ready,
            r.state().task_start_time is None,
            r.state().task_syscall_times@ == Seq::new(MAX_SYSCALL_NUM as nat, |i: int| 0u32),
            r.state().parent is None,
            r.state().children@ == Seq::<usize>::empty(),
            r.state().exit_code == 0,
            r.state().heap_bottom == image.user_sp,
            r.state().program_brk == image.user_sp,
            r.state().stride == INIT_STRIDE,
            r.state().priority == INIT_PRIORITY,
    {
        let kernel_stack_top = kernel_stack.get_top();
        let LoadedImage { memory_set, user_sp, entry_point } = image;
        TaskControlBlock {
            pid,
            kernel_stack,
            inner: TaskControlBlockInner {
                trap_cx: TrapContext::app_init_context(entry_point, user_sp, kernel_stack_top),
                base_size: user_sp,
                task_cx: TaskContext::goto_trap_return(kernel_stack_top),
                task_status: TaskStatus::Ready,
                task_start_time: None,
                task_syscall_times: zero_counters(),
                memory_set,
                parent: None,
                children: Vec::new(),
                exit_code: 0,
                heap_bottom: user_sp,
                program_brk: user_sp,
                stride: INIT_STRIDE,
                priority: INIT_PRIORITY,
            },
        }
    }

    /// Replaces the task's image: a new address space and trap context; pid,
    /// kernel stack, family, accounting and heap bounds stay.
    pub fn exec(&mut self, image: LoadedImage)
        requires
            old(self).wf(),
            image.wf(),
        ensures
            final(self).wf(),
            final(self).pid == old(self).pid,
            final(self).kernel_stack == old(self).kernel_stack,
            final(self).state().memory_set@ == image.memory_set@,
            final(self).state().memory_set.root() == image.memory_set.root(),
            final(self).state().trap_cx == (TrapContext {
                sepc: image.entry_point,
                user_sp: image.user_sp,
                kernel_sp: old(self).kernel_stack.top,
            }),
            final(self).state().base_size == image.user_sp,
            final(self).state().task_cx == old(self).state().task_cx,
            final(self).state().task_status == old(self).state().task_status,
            final(self).state().task_start_time == old(self).state().task_start_time,
            final(self).state().task_syscall_times@ == old(self).state().task_syscall_times@,
            final(self).state().parent == old(self).state().parent,
            final(self).state().children@ == old(self).state().children@,
            final(self).state().exit_code == old(self).state().exit_code,
            final(self).state().heap_bottom == old(self).state().heap_bottom,
            final(self).state().program_brk == old(self).state().program_brk,
            final(self).state().stride == old(self).state().stride,
            final(self).state().priority == old(self).state().priority,
    {
        let LoadedImage { memory_set, user_sp, entry_point } = image;
        let kernel_stack_top = self.kernel_stack.get_top();
        let inner = self.inner_exclusive_access();
        inner.memory_set = memory_set;
        inner.base_size = user_sp;
        inner.trap_cx = TrapContext::app_init_context(entry_point, user_sp, kernel_stack_top);
    }

    /// Duplicates the task: the child gets pid `pid`, kernel stack
    /// `kernel_stack`, a copy of the address space rooted at `root_ppn`, the
    /// same accounting and heap bounds, default stride and priority, and the
    /// caller as parent; it is recorded among the caller's children.
    pub fn fork(&mut self, pid: PidHandle, kernel_stack: KernelStack, root_ppn: usize) -> (child: Self)
        requires
            old(self).wf(),
        ensures
            final(self).wf(),
            child.wf(),
            final(self).pid == old(self).pid,
            final(self).kernel_stack == old(self).kernel_stack,
            final(self).state().children@ == old(self).state().children@.push(pid.0),
            final(self).state().memory_set@ == old(self).state().memory_set@,
            same_but_children(final(self).state(), old(self).state()),
            child.pid == pid,
            child.kernel_stack == kernel_stack,
            child.state().memory_set@ == old(self).state().memory_set@,
            child.state().memory_set.root() == root_ppn,
            child.state().trap_cx == (TrapContext {
                kernel_sp: kernel_stack.top,
                ..old(self).state().trap_cx
            }),
            child.state().task_cx == (TaskContext { sp: kernel_stack.top }),
            child.state().base_size == old(self).state().base_size,
            child.state().task_status == TaskStatus::Ready,
            child.state().task_start_time == old(self).state().task_start_time,
            child.state().task_syscall_times@ == old(self).state().task_syscall_times@,
            child.state().parent == Some(old(self).pid.0),
            child.state().children@ == Seq::<usize>::empty(),
            child.state().exit_code == 0,
            child.state().heap_bottom == old(self).state().heap_bottom,
            child.state().program_brk == old(self).state().program_brk,
            child.state().stride == INIT_STRIDE,
            child.state().priority == INIT_PRIORITY,
    {
        let parent_pid = self.pid.0;
        let kernel_stack_top = kernel_stack.get_top();
        let parent_inner = self.inner_exclusive_access();
        let memory_set = parent_inner.memory_set.from_existed_user(root_ppn);
        let mut trap_cx = parent_inner.trap_cx;
        trap_cx.kernel_sp = kernel_stack_top;
        let child = TaskControlBlock {
            pid,
            kernel_stack,
            inner: TaskControlBlockInner {
                trap_cx,
                base_size: parent_inner.base_size,
                task_cx: TaskContext::goto_trap_return(kernel_stack_top),
                task_status: TaskStatus::Ready,
                task_start_time: parent_inner.task_start_time,
                task_syscall_times: copy_counters(&parent_inner.task_syscall_times),
                memory_set,
                parent: Some(parent_pid),
                children: Vec::new(),
                exit_code: 0,
                heap_bottom: parent_inner.heap_bottom,
                program_brk: parent_inner.program_brk,
                stride: INIT_STRIDE,
                priority: INIT_PRIORITY,
            },
        };
        parent_inner.children.push(pid.0);
        child
    }

    /// Creates a child from a loaded image: pid `pid`, kernel stack
    /// `kernel_stack`, the image's space and entry, heap bounds taken from the
    /// caller, fresh accounting, default stride and priority, and the caller as
    /// parent; it is recorded among the caller's children.
    pub fn spawn(&mut self, image: LoadedImage, pid: PidHandle, kernel_stack: KernelStack) -> (child: Self)
        requires
            old(self).wf(),
            image.wf(),
        ensures
            final(self).wf(),
            child.wf(),
            final(self).pid == old(self).pid,
            final(self).kernel_stack == old(self).kernel_stack,
            final(self).state().children@ == old(self).state().children@.push(pid.0),
            final(self).state().memory_set@ == old(self).state().memory_set@,
            same_but_children(final(self).state(), old(self).state()),
            child.pid == pid,
            child.kernel_stack == kernel_stack,
            child.state().memory_set@ == image.memory_set@,
            child.state().memory_set.root() == image.memory_set.root(),
            child.state().trap_cx == (TrapContext {
                sepc: image.entry_point,
                user_sp: image.user_sp,
                kernel_sp: kernel_stack.top,
            }),
            child.state().task_cx == (TaskContext { sp: kernel_stack.top }),
            child.state().base_size == image.user_sp,
            child.state().task_status == TaskStatus::Ready,
            child.state().task_start_time is None,
            child.state().task_syscall_times@ == Seq::new(MAX_SYSCALL_NUM as nat, |i: int| 0u32),
            child.state().parent == Some(old(self).pid.0),
            child.state().children@ == Seq::<usize>::empty(),
            child.state().exit_code == 0,
            child.state().heap_bottom == old(self).state().heap_bottom,
            child.state().program_brk == old(self).state().program_brk,
            child.state().stride == INIT_STRIDE,
            child.state().priority == INIT_PRIORITY,
    {
        let parent_pid = self.pid.0;
        let kernel_stack_top = kernel_stack.get_top();
        let parent_inner = self.inner_exclusive_access();
        let LoadedImage { memory_set, user_sp, entry_point } = image;
        let child = TaskControlBlock {
            pid,
            kernel_stack,
            inner: TaskControlBlockInner {
                trap_cx: TrapContext::app_init_context(entry_point, user_sp, kernel_stack_top),
                base_size: user_sp,
                task_cx: TaskContext::goto_trap_return(kernel_stack_top),
                task_status: TaskStatus::Ready,
                task_start_time: None,
                task_syscall_times: zero_counters(),
                memory_set,
                parent: Some(parent_pid),
                children: Vec::new(),
                exit_code: 0,
                heap_bottom: parent_inner.heap_bottom,
                program_brk: parent_inner.program_brk,
                stride: INIT_STRIDE,
                priority: INIT_PRIORITY,
            },
        };
        parent_inner.children.push(pid.0);
        child
    }

    /// The process identifier.
    pub fn getpid(&self) -> (r: usize)
        ensures
            r == self.pid.0,
    {
        self.pid.0
    }

    /// Moves the program break by `size` bytes, growing or shrinking the heap
    /// region to match. Returns the previous break, or `None` (with nothing
    /// changed) if the new break would fall below the heap bottom or past the
    /// last addressable page, or the heap region cannot be resized to it.
    pub fn change_program_brk(&mut self, size: i32) -> (r: Option<usize>)
        requires
            old(self).wf(),
        ensures
            final(self).wf(),
            final(self).pid == old(self).pid,
            final(self).kernel_stack == old(self).kernel_stack,
            same_but_space(final(self).state(), old(self).state()),
            match resized_space(
                old(self).state().memory_set@,
                old(self).state().heap_bottom,
                old(self).state().program_brk,
                size,
            ) {
                None => {
                    &&& r is None
                    &&& final(self).state().memory_set@ == old(self).state().memory_set@
                    &&& final(self).state().program_brk == old(self).state().program_brk
                },
                Some(v) => {
                    &&& r == Some(old(self).state().program_brk)
                    &&& final(self).state().memory_set@ == v
                    &&& final(self).state().program_brk == old(self).state().program_brk + size
                },
            },
    {
        let inner = self.inner_exclusive_access();
        let heap_bottom = inner.heap_bottom;
        let old_break = inner.program_brk;
        let new_brk: i128 = old_break as i128 + size as i128;
        if new_brk < heap_bottom as i128 || new_brk > USER_END as i128 {
            return None;
        }
        let new_brk = new_brk as usize;
        let result = if size < 0 {
            inner.memory_set.shrink_to(heap_bottom / PAGE_SIZE, ceil_page(new_brk))
        } else {
            inner.memory_set.append_to(heap_bottom / PAGE_SIZE, ceil_page(new_brk))
        };
        if result {
            inner.program_brk = new_brk;
            Some(old_break)
        } else {
            None
        }
    }

    /// When the task was first scheduled, if it has been.
    pub fn get_start_time(&self) -> (r: Option<usize>)
        ensures
            r == self.state().task_start_time,
    {
        self.inner.task_start_time
    }

    /// The invocation count of each system call.
    pub fn get_syscall_times(&self) -> (r: Vec<u32>)
        ensures
            r@ == self.state().task_syscall_times@,
    {
        copy_counters(&self.inner.task_syscall_times)
    }

    /// Sets the invocation count of system call `syscall_id`.
    pub fn set_syscall_times(&mut self, syscall_id: usize, syscall_times: u32)
        requires
            old(self).wf(),
            syscall_id < MAX_SYSCALL_NUM,
        ensures
            final(self).wf(),
            final(self).pid == old(self).pid,
            final(self).kernel_stack == old(self).kernel_stack,
            final(self).state().task_syscall_times@ == old(self).state().task_syscall_times@.update(
                syscall_id as int,
                syscall_times,
            ),
            final(self).state().stride == old(self).state().stride,
            final(self).state().priority == old(self).state().priority,
            same_but_accounting(final(self).state(), old(self).state()),
    {
        let inner = self.inner_exclusive_access();
        inner.task_syscall_times.set(syscall_id, syscall_times);
    }

    /// Counts one more invocation of system call `syscall_id`; a count at the
    /// largest `u32` stays there.
    pub fn increase_syscall_times(&mut self, syscall_id: usize)
        requires
            old(self).wf(),
            syscall_id < MAX_SYSCALL_NUM,
        ensures
            final(self).wf(),
            final(self).pid == old(self).pid,
            final(self).kernel_stack == old(self).kernel_stack,
            final(self).state().task_syscall_times@ == old(self).state().task_syscall_times@.update(
                syscall_id as int,
                if old(self).state().task_syscall_times@[syscall_id as int] < u32::MAX {
                    (old(self).state().task_syscall_times@[syscall_id as int] + 1) as u32
                } else {
                    u32::MAX
                },
            ),
            final(self).state().stride == old(self).state().stride,
            final(self).state().priority == old(self).state().priority,
            same_but_accounting(final(self).state(), old(self).state()),
    {
        let inner = self.inner_exclusive_access();
        let v = inner.task_syscall_times[syscall_id].saturating_add(1);
        inner.task_syscall_times.set(syscall_id, v);
    }

    /// Maps `[start, start + len)` as a new region of zeroed pages with the
    /// rights of `port` (bit 0 read, bit 1 write, bit 2 execute; always user).
    /// Returns the page range, or `None` (with nothing changed) if the mask is
    /// empty or has other bits, `start` is not page aligned, or the range
    /// shares a page with a mapped region. The range must end at an address
    /// that a region can reach.
    pub fn mmap(&mut self, start: usize, len: usize, port: usize) -> (r: Option<(VirtPageNum, VirtPageNum)>)
        requires
            old(self).wf(),
            start + len <= USER_END,
        ensures
            final(self).wf(),
            final(self).pid == old(self).pid,
            final(self).kernel_stack == old(self).kernel_stack,
            same_but_space(final(self).state(), old(self).state()),
            final(self).state().program_brk == old(self).state().program_brk,
            r is Some == mmap_ok(old(self).state().memory_set@, start, len, port),
            r is Some ==> r == Some(
                (
                    VirtPageNum((start / PAGE_SIZE) as usize),
                    VirtPageNum(page_ceil(start + len) as usize),
                ),
            ),
            r is Some ==> final(self).state().memory_set@ == mmap_view(
                old(self).state().memory_set@,
                start,
                len,
                port,
            ),
            r is None ==> final(self).state().memory_set@ == old(self).state().memory_set@,
    {
        if port > 7 || port == 0 {
            return None;
        }
        if start % PAGE_SIZE != 0 {
            return None;
        }
        let inner = self.inner_exclusive_access();
        let s = start / PAGE_SIZE;
        let e = ceil_page(start + len);
        if !inner.memory_set.is_free(s, e) {
            return None;
        }
        let map_perm = MapPermission {
            readable: port % 2 == 1,
            writable: (port / 2) % 2 == 1,
            executable: (port / 4) % 2 == 1,
            user: true,
        };
        inner.memory_set.insert_framed_area(s, e, map_perm);
        Some((VirtPageNum(s), VirtPageNum(e)))
    }

    /// Unmaps the region whose page bounds are exactly those of
    /// `[start, start + len)`; returns whether `start` was page aligned and
    /// there was such a region.
    pub fn munmap(&mut self, start: usize, len: usize) -> (r: bool)
        requires
            old(self).wf(),
        ensures
            final(self).wf(),
            final(self).pid == old(self).pid,
            final(self).kernel_stack == old(self).kernel_stack,
            same_but_space(final(self).state(), old(self).state()),
            final(self).state().program_brk == old(self).state().program_brk,
            r == munmap_ok(old(self).state().memory_set@, start, len),
            final(self).state().memory_set@ == munmap_view(old(self).state().memory_set@, start, len),
    {
        if start % PAGE_SIZE != 0 || len > usize::MAX - start {
            return false;
        }
        let inner = self.inner_exclusive_access();
        inner.memory_set.remove_area(start / PAGE_SIZE, ceil_page(start + len))
    }

    /// The scheduling priority.
    pub fn get_priority(&self) -> (r: isize)
        ensures
            r == self.state().priority,
    {
        self.inner.priority
    }

    /// Sets the scheduling priority to `prio` if it lies in `1..=BIG_STRIDE`;
    /// returns whether it did. Any other value, a non-positive one in
    /// particular, is refused and nothing changes.
    pub fn set_priority(&mut self, prio: isize) -> (ok: bool)
        requires
            old(self).wf(),
        ensures
            final(self).wf(),
            ok == (1 <= prio <= BIG_STRIDE),
            final(self).pid == old(self).pid,
            final(self).kernel_stack == old(self).kernel_stack,
            final(self).state().priority == if ok { prio } else { old(self).state().priority },
            final(self).state().stride == old(self).state().stride,
            final(self).state().task_syscall_times@ == old(self).state().task_syscall_times@,
            same_but_accounting(final(self).state(), old(self).state()),
    {
        if prio < 1 || prio > BIG_STRIDE {
            return false;
        }
        let inner = self.inner_exclusive_access();
        inner.priority = prio;
        true
    }

    /// The accumulated stride.
    pub fn get_stride(&self) -> (r: isize)
        ensures
            r == self.state().stride,
    {
        self.inner.stride
    }

    /// Sets the accumulated stride.
    pub fn set_stride(&mut self, stride: isize)
        requires
            old(self).wf(),
        ensures
            final(self).wf(),
            final(self).pid == old(self).pid,
            final(self).kernel_stack == old(self).kernel_stack,
            final(self).state().stride == stride,
            final(self).state().priority == old(self).state().priority,
            final(self).state().task_syscall_times@ == old(self).state().task_syscall_times@,
            same_but_accounting(final(self).state(), old(self).state()),
    {
        let inner = self.inner_exclusive_access();
        inner.stride = stride;
    }
}

} // verus!
