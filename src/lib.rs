//! Process management and virtual memory core of a small teaching kernel:
//! address spaces with mmap, munmap and a program break, tasks in a process
//! tree, a stride scheduler, and the syscalls over them, modelled as plain
//! state and verified with Verus.
pub mod abi;
pub mod config;
pub mod mm;
pub mod task;
