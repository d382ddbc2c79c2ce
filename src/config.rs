//! Constants shared by the kernel components.
use vstd::prelude::*;

verus! {

/// Size of one virtual page and of one physical frame, in bytes.
pub const PAGE_SIZE: usize = 4096;

/// Numerator of the stride: a task of priority `p` advances its pass by `BIG_STRIDE / p`.
pub const BIG_STRIDE: u64 = 1048576;

/// Priority given to every new task.
pub const DEFAULT_PRIORITY: u64 = 16;

/// Number of syscall identifiers whose invocations are counted per task.
pub const MAX_SYSCALL_NUM: usize = 500;

/// Number of general-purpose registers in a trap context.
pub const NUM_REGS: usize = 32;

/// Register that carries a syscall's return value (`a0`).
pub const REG_A0: usize = 10;

/// Register that holds the user stack pointer (`sp`).
pub const REG_SP: usize = 2;

} // verus!
