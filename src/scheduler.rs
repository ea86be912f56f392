//! Stride scheduling: the ready queue picks the task with the smallest
//! stride (the earliest queued among equals) and charges it
//! `BIG_STRIDE / priority`; the processor runs what it picks.
use crate::config::BIG_STRIDE;
use crate::task::{TaskControlBlock, TaskControlBlockInner, TaskStatus};
use vstd::prelude::*;

verus! {

/// A queued task as the scheduler sees it: pid, stride, priority.
pub type Entry = (usize, isize, isize);

/// The scheduler's view of one task.
pub open spec fn entry_of(t: TaskControlBlock) -> Entry {
    (t.pid.0, t.state().stride, t.state().priority)
}

/// The scheduler's view of a queue of tasks.
pub open spec fn entries(q: Seq<TaskControlBlock>) -> Seq<Entry> {
    q.map_values(|t: TaskControlBlock| entry_of(t))
}

/// `t` with lifecycle state `status`.
pub open spec fn with_status(t: TaskControlBlock, status: TaskStatus) -> TaskControlBlock {
    TaskControlBlock { inner: TaskControlBlockInner { task_status: status, ..t.inner }, ..t }
}

/// `t` after one selection has been charged to its stride.
pub open spec fn charged(t: TaskControlBlock) -> TaskControlBlock {
    TaskControlBlock {
        inner: TaskControlBlockInner { stride: bumped(t.inner.stride, t.inner.priority), ..t.inner },
        ..t
    }
}

/// `t` once picked at time `now_us`: charged, Running, and with its start
/// time set to `now_us` if it had none; nothing else changes.
pub open spec fn started(t: TaskControlBlock, now_us: usize) -> TaskControlBlock {
    TaskControlBlock {
        inner: TaskControlBlockInner {
            stride: bumped(t.inner.stride, t.inner.priority),
            task_status: TaskStatus::Running,
            task_start_time: if t.inner.task_start_time is None {
                Some(now_us)
            } else {
                t.inner.task_start_time
            },
            ..t.inner
        },
        ..t
    }
}

/// `t` once it has exited with `exit_code`; nothing else changes.
pub open spec fn exited_with(t: TaskControlBlock, exit_code: i32) -> TaskControlBlock {
    TaskControlBlock {
        inner: TaskControlBlockInner { task_status: TaskStatus::Zombie, exit_code, ..t.inner },
        ..t
    }
}

/// The tasks the processor chooses from once the running task `cur`, if
/// any, has become Ready and joined the back of the ready tasks `q`.
pub open spec fn candidates(q: Seq<TaskControlBlock>, cur: Option<TaskControlBlock>) -> Seq<TaskControlBlock> {
    match cur {
        Some(t) => q.push(with_status(t, TaskStatus::Ready)),
        None => q,
    }
}

/// Choosing among the tasks `q` at time `now_us` left `cur` running and
/// `ready` queued: the picked task runs, started, and the others stay queued
/// as they were, in order; with nothing to pick the processor is idle.
pub open spec fn runs_pick_of(
    q: Seq<TaskControlBlock>,
    now_us: usize,
    cur: Option<TaskControlBlock>,
    ready: Seq<TaskControlBlock>,
) -> bool {
    &&& cur is Some <==> q.len() > 0
    &&& q.len() > 0 ==> {
        let i = pick(entries(q));
        &&& cur == Some(started(q[i], now_us))
        &&& ready == q.remove(i)
    }
    &&& q.len() == 0 ==> ready == q
}

/// What one selection costs a task of priority `priority`.
pub open spec fn pass(priority: isize) -> int {
    BIG_STRIDE as int / priority as int
}

/// The stride after one selection, held at the largest `isize`.
pub open spec fn bumped(stride: isize, priority: isize) -> isize {
    if stride + pass(priority) > isize::MAX {
        isize::MAX
    } else {
        (stride + pass(priority)) as isize
    }
}

/// Index of the entry with the smallest stride, the first such one.
pub open spec fn pick(q: Seq<Entry>) -> int
    decreases q.len(),
{
    if q.len() <= 1 {
        0
    } else {
        let k = pick(q.drop_last());
        if q.last().1 < q[k].1 {
            q.len() - 1
        } else {
            k
        }
    }
}

/// One round of the scheduler on queue `q`: the picked task is charged and
/// queued again at the back, as when it runs and then yields.
pub open spec fn step(q: Seq<Entry>) -> Seq<Entry> {
    let i = pick(q);
    q.remove(i).push((q[i].0, bumped(q[i].1, q[i].2), q[i].2))
}

proof fn lemma_pick_bounds(q: Seq<Entry>)
    requires
        q.len() > 0,
    ensures
        0 <= pick(q) < q.len(),
        forall|j: int| 0 <= j < q.len() ==> q[pick(q)].1 <= #[trigger] q[j].1,
        forall|j: int| 0 <= j < pick(q) ==> q[pick(q)].1 < #[trigger] q[j].1,
    decreases q.len(),
{
    if q.len() > 1 {
        let d = q.drop_last();
        lemma_pick_bounds(d);
        assert forall|j: int| 0 <= j < d.len() implies d[j] == q[j] by {}
    }
}

/// `n` rounds of the scheduler on queue `q`.
pub open spec fn steps(q: Seq<Entry>, n: nat) -> Seq<Entry>
    decreases n,
{
    if n == 0 {
        q
    } else {
        steps(step(q), (n - 1) as nat)
    }
}

/// The pid that the scheduler picks in round `k` (counting from 0) on `q`.
pub open spec fn picked(q: Seq<Entry>, k: nat) -> usize {
    steps(q, k)[pick(steps(q, k))].0
}

proof fn lemma_lone_round(pid: usize, stride: isize, p: isize)
    requires
        1 <= p <= BIG_STRIDE,
        stride + BIG_STRIDE / p <= isize::MAX,
    ensures
        step(seq![(pid, stride, p)]) == seq![(pid, (stride + BIG_STRIDE / p) as isize, p)],
{
    let q = seq![(pid, stride, p)];
    assert(q.remove(0) =~= Seq::<Entry>::empty());
    assert(step(q) =~= seq![(pid, (stride + BIG_STRIDE / p) as isize, p)]);
}

proof fn lemma_lone_rounds_closed(pid: usize, stride: isize, p: isize, n: nat)
    requires
        1 <= p <= BIG_STRIDE,
        stride + n * (BIG_STRIDE / p) <= isize::MAX,
    ensures
        steps(seq![(pid, stride, p)], n) == seq![(pid, (stride + n * (BIG_STRIDE / p)) as isize, p)],
    decreases n,
{
    let c = BIG_STRIDE / p;
    assert(c >= 1) by (nonlinear_arith)
        requires
            1 <= p <= BIG_STRIDE,
            c == BIG_STRIDE / p,
    ;
    if n > 0 {
        assert(stride + n * c == stride + c + (n - 1) * c) by (nonlinear_arith);
        assert((n - 1) * c >= 0) by (nonlinear_arith)
            requires
                n >= 1,
                c >= 1,
        ;
        lemma_lone_round(pid, stride, p);
        let s1 = (stride + c) as isize;
        lemma_lone_rounds_closed(pid, s1, p, (n - 1) as nat);
        assert(steps(seq![(pid, stride, p)], n) == steps(seq![(pid, s1, p)], (n - 1) as nat));
        assert(s1 + (n - 1) * c == stride + n * c);
    } else {
        assert(n * c == 0) by (nonlinear_arith)
            requires
                n == 0,
        ;
        assert(seq![(pid, stride, p)] =~= seq![(pid, (stride + n * c) as isize, p)]);
    }
}

/// Repeatedly scheduling a lone ready task of priority `p` in `1..=BIG_STRIDE`
/// raises its stride by exactly `BIG_STRIDE / p` in every round, a strict
/// increase, for as many rounds as the stride stays within `isize`.
pub proof fn lemma_lone_task_stride(pid: usize, stride: isize, p: isize, n: nat)
    requires
        1 <= p <= BIG_STRIDE,
        stride + n * (BIG_STRIDE / p) <= isize::MAX,
    ensures
        forall|k: nat|
            k < n ==> {
                &&& (#[trigger] steps(seq![(pid, stride, p)], k + 1)).len() == 1
                &&& steps(seq![(pid, stride, p)], k + 1)[0].0 == pid
                &&& steps(seq![(pid, stride, p)], k + 1)[0].1 == steps(seq![(pid, stride, p)], k)[0].1
                    + BIG_STRIDE / p
                &&& steps(seq![(pid, stride, p)], k + 1)[0].1 > steps(seq![(pid, stride, p)], k)[0].1
            },
{
    let c = BIG_STRIDE / p;
    assert(c >= 1) by (nonlinear_arith)
        requires
            1 <= p <= BIG_STRIDE,
            c == BIG_STRIDE / p,
    ;
    assert forall|k: nat| k < n implies {
        &&& (#[trigger] steps(seq![(pid, stride, p)], k + 1)).len() == 1
        &&& steps(seq![(pid, stride, p)], k + 1)[0].0 == pid
        &&& steps(seq![(pid, stride, p)], k + 1)[0].1 == steps(seq![(pid, stride, p)], k)[0].1 + c
        &&& steps(seq![(pid, stride, p)], k + 1)[0].1 > steps(seq![(pid, stride, p)], k)[0].1
    } by {
        assert(k * c <= n * c && (k + 1) * c <= n * c && (k + 1) * c == k * c + c && k * c >= 0)
            by (nonlinear_arith)
            requires
                k < n,
                c >= 1,
        ;
        lemma_lone_rounds_closed(pid, stride, p, k);
        lemma_lone_rounds_closed(pid, stride, p, k + 1);
    }
}

/// Two ready tasks of equal priority whose strides differ by at most one
/// charge (as when both start with the default stride).
pub open spec fn balanced_pair(q: Seq<Entry>) -> bool {
    &&& q.len() == 2
    &&& q[0].0 != q[1].0
    &&& q[0].2 == q[1].2
    &&& 1 <= q[0].2 <= BIG_STRIDE
    &&& -pass(q[0].2) <= q[0].1 - q[1].1 <= pass(q[0].2)
}

/// The larger stride of a pair.
pub open spec fn top_stride(q: Seq<Entry>) -> int {
    if q[0].1 >= q[1].1 {
        q[0].1 as int
    } else {
        q[1].1 as int
    }
}

proof fn lemma_pair_round(q: Seq<Entry>)
    requires
        balanced_pair(q),
        top_stride(q) + pass(q[0].2) <= isize::MAX,
    ensures
        balanced_pair(step(q)),
        step(q)[0].2 == q[0].2,
        set![step(q)[0].0, step(q)[1].0] == set![q[0].0, q[1].0],
        set![picked(q, 0), picked(q, 1)] == set![q[0].0, q[1].0],
        top_stride(step(q)) <= top_stride(q) + pass(q[0].2),
{
    let p = q[0].2;
    let q1 = step(q);
    assert(pass(p) >= 1) by (nonlinear_arith)
        requires
            1 <= p <= BIG_STRIDE,
            pass(p) == BIG_STRIDE as int / p as int,
    ;
    assert(q.drop_last() =~= seq![q[0]]);
    assert(pick(q.drop_last()) == 0);
    assert(steps(q, 0) == q);
    assert(steps(q1, 0) == q1);
    assert(steps(q, 1) == q1);
    if q[1].1 < q[0].1 {
        assert(pick(q) == 1);
        assert(q1 =~= seq![q[0], (q[1].0, (q[1].1 + pass(p)) as isize, p)]);
        assert(set![q[0].0, q[1].0] =~= set![q[1].0, q[0].0]);
    } else {
        assert(pick(q) == 0);
        assert(q1 =~= seq![q[1], (q[0].0, (q[0].1 + pass(p)) as isize, p)]);
        assert(set![q[1].0, q[0].0] =~= set![q[0].0, q[1].0]);
    }
    assert(q1.drop_last() =~= seq![q1[0]]);
    assert(pick(q1.drop_last()) == 0);
    assert(pick(q1) == 0);
}

/// Two ready tasks of equal priority are picked in turn: in every window of
/// two consecutive rounds, for as many rounds as strides stay within
/// `isize`, each task is picked exactly once.
pub proof fn lemma_equal_priority_alternate(q: Seq<Entry>, n: nat)
    requires
        balanced_pair(q),
        top_stride(q) + (n + 1) * pass(q[0].2) <= isize::MAX,
    ensures
        forall|k: nat|
            k < n ==> set![picked(q, k), #[trigger] picked(q, k + 1)] == set![q[0].0, q[1].0],
    decreases n,
{
    let c = pass(q[0].2);
    assert(c >= 1) by (nonlinear_arith)
        requires
            1 <= q[0].2 <= BIG_STRIDE,
            c == BIG_STRIDE as int / q[0].2 as int,
    ;
    if n > 0 {
        assert((n + 1) * c == c + n * c && n * c >= c) by (nonlinear_arith)
            requires
                n >= 1,
                c >= 1,
        ;
        lemma_pair_round(q);
        let q1 = step(q);
        lemma_equal_priority_alternate(q1, (n - 1) as nat);
        assert forall|k: nat| k < n implies set![picked(q, k), #[trigger] picked(q, k + 1)] == set![q[0].0, q[1].0] by {
            if k > 0 {
                let j = (k - 1) as nat;
                assert(steps(q, k) == steps(q1, j));
                assert(steps(q, k + 1) == steps(q1, j + 1));
                assert(picked(q, k) == picked(q1, j));
                assert(picked(q, k + 1) == picked(q1, j + 1));
            }
        }
    }
}

/// Ready tasks waiting for the processor, in the order they were queued.
pub struct TaskManager {
    ready_queue: Vec<TaskControlBlock>,
}

impl TaskManager {
    /// The queued tasks, oldest first.
    pub closed spec fn queue(&self) -> Seq<TaskControlBlock> {
        self.ready_queue@
    }

    /// Every queued task is consistent.
    pub open spec fn wf(&self) -> bool {
        forall|i: int| 0 <= i < self.queue().len() ==> (#[trigger] self.queue()[i]).wf()
    }

    /// An empty queue.
    pub fn new() -> (r: Self)
        ensures
            r.wf(),
            r.queue() == Seq::<TaskControlBlock>::empty(),
    {
        TaskManager { ready_queue: Vec::new() }
    }

    /// Number of queued tasks.
    pub fn len(&self) -> (r: usize)
        ensures
            r == self.queue().len(),
    {
        self.ready_queue.len()
    }

    /// Queues `task` behind the others.
    pub fn add(&mut self, task: TaskControlBlock)
        requires
            old(self).wf(),
            task.wf(),
        ensures
            final(self).wf(),
            final(self).queue() == old(self).queue().push(task),
    {
        let ghost q = self.queue();
        self.ready_queue.push(task);
        assert forall|i: int| 0 <= i < self.queue().len() implies (#[trigger] self.queue()[i]).wf() by {
            if i < q.len() {
                assert(self.queue()[i] == q[i]);
            }
        }
    }

    fn find_min(&self) -> (r: usize)
        requires
            self.queue().len() > 0,
        ensures
            r == pick(entries(self.queue())),
    {
        let ghost e = entries(self.queue());
        let mut best: usize = 0;
        let mut j: usize = 1;
        while j < self.ready_queue.len()
            invariant
                1 <= j <= self.ready_queue.len(),
                e == entries(self.queue()),
                best == pick(e.take(j as int)),
                best < j,
            decreases self.ready_queue.len() - j,
        {
            proof {
                assert(e.take(j as int + 1).drop_last() =~= e.take(j as int));
            }
            if self.ready_queue[j].get_stride() < self.ready_queue[best].get_stride() {
                best = j;
            }
            j += 1;
        }
        proof {
            assert(e.take(j as int) =~= e);
        }
        best
    }

    /// Takes out the task with the smallest stride (the earliest queued among
    /// equals) and charges it `BIG_STRIDE / priority`; `None` if the queue is
    /// empty.
    pub fn fetch(&mut self) -> (r: Option<TaskControlBlock>)
        requires
            old(self).wf(),
        ensures
            final(self).wf(),
            r is None <==> old(self).queue().len() == 0,
            r is None ==> final(self).queue() == old(self).queue(),
            r matches Some(t) ==> {
                let q = old(self).queue();
                let i = pick(entries(q));
                &&& 0 <= i < q.len()
                &&& final(self).queue() == q.remove(i)
                &&& t.wf()
                &&& t == charged(q[i])
                &&& entries(final(self).queue()).push(
                    (t.pid.0, t.state().stride, t.state().priority),
                ) == step(entries(q))
            },
    {
        if self.ready_queue.len() == 0 {
            return None;
        }
        let i = self.find_min();
        proof {
            lemma_pick_bounds(entries(self.queue()));
        }
        let ghost q = self.queue();
        let mut t = self.ready_queue.remove(i);
        assert(t.wf());
        let charge = BIG_STRIDE / t.inner.priority;
        let next = if t.inner.stride > isize::MAX - charge {
            isize::MAX
        } else {
            t.inner.stride + charge
        };
        t.inner.stride = next;
        proof {
            assert(entries(self.queue()) =~= entries(q).remove(i as int));
            assert(entries(self.queue()).push((t.pid.0, t.state().stride, t.state().priority))
                =~= step(entries(q)));
            assert forall|k: int| 0 <= k < self.queue().len() implies (#[trigger] self.queue()[k]).wf() by {
                if k < i {
                    assert(self.queue()[k] == q[k]);
                } else {
                    assert(self.queue()[k] == q[k + 1]);
                }
            }
        }
        Some(t)
    }
}

/// The processor: the task it runs, the ready queue, and the tasks that
/// have exited and wait to be reaped.
pub struct Processor {
    current: Option<TaskControlBlock>,
    manager: TaskManager,
    exited: Vec<TaskControlBlock>,
}

impl Processor {
    /// The running task, if any.
    pub closed spec fn current_task(&self) -> Option<TaskControlBlock> {
        self.current
    }

    /// The ready queue.
    pub closed spec fn ready(&self) -> TaskManager {
        self.manager
    }

    /// Tasks that have exited, in the order they did.
    pub closed spec fn zombies(&self) -> Seq<TaskControlBlock> {
        self.exited@
    }

    /// All tasks held are consistent.
    pub open spec fn wf(&self) -> bool {
        &&& self.ready().wf()
        &&& (self.current_task() matches Some(t) ==> t.wf())
    }

    /// An idle processor over the ready queue `manager`.
    pub fn new(manager: TaskManager) -> (r: Self)
        requires
            manager.wf(),
        ensures
            r.wf(),
            r.current_task() is None,
            r.ready() == manager,
            r.zombies() == Seq::<TaskControlBlock>::empty(),
    {
        Processor { current: None, manager, exited: Vec::new() }
    }

    /// The running task, if any.
    pub fn current(&self) -> (r: Option<&TaskControlBlock>)
        ensures
            r matches Some(t) ==> self.current_task() == Some(*t),
            r is None ==> self.current_task() is None,
    {
        match &self.current {
            Some(t) => Some(t),
            None => None,
        }
    }

    /// The running task, for changes, if any.
    pub fn current_mut(&mut self) -> (r: Option<&mut TaskControlBlock>)
        ensures
            r matches Some(t) ==> {
                &&& old(self).current_task() == Some(*t)
                &&& final(self).current_task() == Some(*final(t))
            },
            r is None ==> old(self).current_task() is None && final(self).current_task() is None,
            final(self).ready() == old(self).ready(),
            final(self).zombies() == old(self).zombies(),
    {
        match &mut self.current {
            Some(t) => Some(t),
            None => None,
        }
    }

    /// Queues a ready task.
    pub fn add_task(&mut self, task: TaskControlBlock)
        requires
            old(self).wf(),
            task.wf(),
        ensures
            final(self).wf(),
            final(self).ready().queue() == old(self).ready().queue().push(task),
            final(self).current_task() == old(self).current_task(),
            final(self).zombies() == old(self).zombies(),
    {
        self.manager.add(task);
    }

    /// With no task running, runs the one the scheduler picks: it is charged,
    /// becomes Running, and gets `now_us` as start time if it had none.
    /// Returns whether a task runs; with an empty queue the processor stays
    /// idle.
    pub fn run_next(&mut self, now_us: usize) -> (ran: bool)
        requires
            old(self).wf(),
            old(self).current_task() is None,
        ensures
            final(self).wf(),
            ran == (old(self).ready().queue().len() > 0),
            final(self).zombies() == old(self).zombies(),
            runs_pick_of(
                old(self).ready().queue(),
                now_us,
                final(self).current_task(),
                final(self).ready().queue(),
            ),
    {
        match self.manager.fetch() {
            None => false,
            Some(mut t) => {
                t.inner.task_status = TaskStatus::Running;
                if t.inner.task_start_time.is_none() {
                    t.inner.task_start_time = Some(now_us);
                }
                self.current = Some(t);
                true
            },
        }
    }

    /// The running task gives up the processor: it becomes Ready and joins
    /// the back of the queue, then the scheduler picks the next task.
    pub fn suspend_current_and_run_next(&mut self, now_us: usize)
        requires
            old(self).wf(),
        ensures
            final(self).wf(),
            final(self).zombies() == old(self).zombies(),
            runs_pick_of(
                candidates(old(self).ready().queue(), old(self).current_task()),
                now_us,
                final(self).current_task(),
                final(self).ready().queue(),
            ),
    {
        match self.current.take() {
            Some(mut t) => {
                t.inner.task_status = TaskStatus::Ready;
                self.manager.add(t);
            },
            None => {},
        }
        self.run_next(now_us);
    }

    /// The running task exits with `exit_code`: it becomes a Zombie holding
    /// the code and joins the exited tasks, otherwise as it was; then the
    /// scheduler picks the next task.
    pub fn exit_current_and_run_next(&mut self, exit_code: i32, now_us: usize)
        requires
            old(self).wf(),
        ensures
            final(self).wf(),
            final(self).zombies() == match old(self).current_task() {
                Some(t) => old(self).zombies().push(exited_with(t, exit_code)),
                None => old(self).zombies(),
            },
            runs_pick_of(
                old(self).ready().queue(),
                now_us,
                final(self).current_task(),
                final(self).ready().queue(),
            ),
    {
        match self.current.take() {
            Some(mut t) => {
                t.inner.task_status = TaskStatus::Zombie;
                t.inner.exit_code = exit_code;
                self.exited.push(t);
            },
            None => {},
        }
        self.run_next(now_us);
    }

    /// Number of tasks that have exited.
    pub fn zombie_count(&self) -> (r: usize)
        ensures
            r == self.zombies().len(),
    {
        self.exited.len()
    }

    /// Number of ready tasks.
    pub fn ready_count(&self) -> (r: usize)
        ensures
            r == self.ready().queue().len(),
    {
        self.manager.len()
    }

    /// Exit code of the `i`-th task to exit.
    pub fn zombie_exit_code(&self, i: usize) -> (r: i32)
        requires
            i < self.zombies().len(),
        ensures
            r == self.zombies()[i as int].state().exit_code,
    {
        self.exited[i].inner.exit_code
    }
}

} // verus!
