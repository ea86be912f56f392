//! Constants of the task subsystem.
use vstd::prelude::*;

verus! {

/// Number of distinct system call ids that are counted per task.
pub const MAX_SYSCALL_NUM: usize = 500;

/// The stride cost that a task of priority 1 pays per selection.
pub const BIG_STRIDE: isize = 0x10_0000;

/// Stride of a task when it is created.
pub const INIT_STRIDE: isize = 0;

/// Priority of a task when it is created.
pub const INIT_PRIORITY: isize = 16;

} // verus!
