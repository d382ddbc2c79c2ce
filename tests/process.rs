use kernel_core::config::{BIG_STRIDE, DEFAULT_PRIORITY, PAGE_SIZE, REG_A0};
use kernel_core::mm::{MemorySet, PERM_R, PERM_U, PERM_W, PERM_X};
use kernel_core::task::{AppImage, Kernel, TaskStatus};

const HEAP_BOTTOM: usize = 0x20000;
const HEAP_LIMIT: usize = 0x80000;
const USER_BUF: usize = 0x1000_0000;

fn image(name: &str) -> AppImage {
    let mut memory = MemorySet::new_bare(HEAP_BOTTOM, HEAP_LIMIT);
    assert!(memory.map_area(0x10, 2, PERM_R | PERM_X | PERM_U));
    AppImage { name: name.as_bytes().to_vec(), memory, entry: 0x10000, user_sp: HEAP_BOTTOM }
}

fn boot() -> Kernel {
    let mut k = Kernel::new(vec![image("initproc"), image("hello")]);
    assert_eq!(k.add_root_task(&b"initproc".to_vec()), 0);
    k.run_next();
    assert_eq!(k.current, Some(0));
    k
}

fn cur_memory(k: &Kernel) -> &MemorySet {
    &k.tasks[k.current.unwrap()].memory_set
}

fn mapped_vpns(m: &MemorySet) -> Vec<usize> {
    let mut v: Vec<usize> = m.pages.keys().copied().collect();
    v.sort();
    v
}

fn read(m: &MemorySet, va: usize, n: usize) -> Vec<u8> {
    (0..n).map(|i| m.read_byte(va + i).unwrap()).collect()
}

fn put_str(k: &mut Kernel, va: usize, s: &str) {
    let c = k.current.unwrap();
    let mut bytes = s.as_bytes().to_vec();
    bytes.push(0);
    assert!(k.tasks[c].memory_set.write_bytes(va, &bytes));
}

#[test]
fn mmap_then_munmap_restores_mapped_pages() {
    let mut k = boot();
    let before = mapped_vpns(cur_memory(&k));
    assert_eq!(k.sys_mmap(USER_BUF, 3 * PAGE_SIZE + 1, 3), 0);
    assert_eq!(mapped_vpns(cur_memory(&k)).len(), before.len() + 4);
    assert_eq!(k.sys_munmap(USER_BUF, 3 * PAGE_SIZE + 1), 0);
    assert_eq!(mapped_vpns(cur_memory(&k)), before);
}

#[test]
fn mmap_sets_user_permissions_and_zero_fills() {
    let mut k = boot();
    assert_eq!(k.sys_mmap(USER_BUF, PAGE_SIZE, 3), 0);
    let page = &cur_memory(&k).pages[&(USER_BUF / PAGE_SIZE)];
    assert_eq!(page.perm, PERM_R | PERM_W | PERM_U);
    assert_eq!(page.data.len(), PAGE_SIZE);
    assert!(page.data.iter().all(|b| *b == 0));
    assert_eq!(k.sys_mmap(USER_BUF + PAGE_SIZE, PAGE_SIZE, 4), 0);
    assert_eq!(cur_memory(&k).pages[&(USER_BUF / PAGE_SIZE + 1)].perm, PERM_X | PERM_U);
}

#[test]
fn mmap_over_existing_mapping_fails_atomically() {
    let mut k = boot();
    assert_eq!(k.sys_mmap(0x1000, 0x2000, 3), 0);
    let before = mapped_vpns(cur_memory(&k));
    assert_eq!(k.sys_mmap(0x2000, 0x2000, 3), -1);
    assert_eq!(mapped_vpns(cur_memory(&k)), before);
    assert!(!cur_memory(&k).is_mapped(3));
}

#[test]
fn mmap_rejects_bad_arguments() {
    let mut k = boot();
    let before = mapped_vpns(cur_memory(&k));
    assert_eq!(k.sys_mmap(USER_BUF + 1, PAGE_SIZE, 3), -1);
    assert_eq!(k.sys_mmap(USER_BUF, PAGE_SIZE, 0), -1);
    assert_eq!(k.sys_mmap(USER_BUF, PAGE_SIZE, 8), -1);
    assert_eq!(k.sys_mmap(USER_BUF, PAGE_SIZE, 0xf), -1);
    assert_eq!(mapped_vpns(cur_memory(&k)), before);
}

#[test]
fn mmap_of_zero_length_maps_nothing() {
    let mut k = boot();
    let before = mapped_vpns(cur_memory(&k));
    assert_eq!(k.sys_mmap(USER_BUF, 0, 1), 0);
    assert_eq!(mapped_vpns(cur_memory(&k)), before);
}

#[test]
fn munmap_with_unmapped_page_fails_and_keeps_mappings() {
    let mut k = boot();
    assert_eq!(k.sys_mmap(USER_BUF, PAGE_SIZE, 3), 0);
    assert_eq!(k.sys_mmap(USER_BUF + 2 * PAGE_SIZE, PAGE_SIZE, 3), 0);
    let before = mapped_vpns(cur_memory(&k));
    assert_eq!(k.sys_munmap(USER_BUF, 3 * PAGE_SIZE), -1);
    assert_eq!(mapped_vpns(cur_memory(&k)), before);
    assert_eq!(k.sys_munmap(USER_BUF + 1, PAGE_SIZE), -1);
    assert_eq!(k.sys_munmap(USER_BUF, PAGE_SIZE), 0);
    assert!(!cur_memory(&k).is_mapped(USER_BUF / PAGE_SIZE));
    assert!(cur_memory(&k).is_mapped(USER_BUF / PAGE_SIZE + 2));
}

#[test]
fn fork_then_waitpid_before_and_after_child_exit() {
    let mut k = boot();
    assert_eq!(k.sys_mmap(USER_BUF, PAGE_SIZE, 3), 0);
    let child = k.sys_fork();
    assert_eq!(child, 1);
    assert_eq!(k.sys_waitpid(-1, USER_BUF), -2);
    let ci = k.find_task(1).unwrap();
    assert_eq!(k.tasks[ci].trap_cx.x[REG_A0], 0);
    assert_eq!(k.tasks[ci].parent, Some(0));
    assert_eq!(k.sys_yield(), 0);
    assert_eq!(k.sys_getpid(), 1);
    k.sys_exit(7);
    assert_eq!(k.sys_getpid(), 0);
    assert_eq!(k.sys_waitpid(-1, USER_BUF), 1);
    assert_eq!(read(cur_memory(&k), USER_BUF, 4), vec![7, 0, 0, 0]);
    assert!(k.find_task(1).is_none());
    assert!(k.tasks[k.current.unwrap()].children.is_empty());
    assert_eq!(k.sys_waitpid(-1, USER_BUF), -1);
}

#[test]
fn waitpid_for_unknown_pid_fails() {
    let mut k = boot();
    assert_eq!(k.sys_mmap(USER_BUF, PAGE_SIZE, 3), 0);
    assert_eq!(k.sys_waitpid(42, USER_BUF), -1);
    assert_eq!(k.sys_fork(), 1);
    assert_eq!(k.sys_waitpid(42, USER_BUF), -1);
    assert_eq!(k.sys_waitpid(1, USER_BUF), -2);
}

#[test]
fn waitpid_with_unmapped_pointer_reaps_nothing() {
    let mut k = boot();
    assert_eq!(k.sys_fork(), 1);
    assert_eq!(k.sys_yield(), 0);
    k.sys_exit(-3);
    assert_eq!(k.sys_waitpid(1, USER_BUF), -1);
    assert!(k.find_task(1).is_some());
    assert_eq!(k.sys_mmap(USER_BUF, PAGE_SIZE, 3), 0);
    assert_eq!(k.sys_waitpid(1, USER_BUF), 1);
    assert_eq!(read(cur_memory(&k), USER_BUF, 4), vec![0xfd, 0xff, 0xff, 0xff]);
}

#[test]
fn higher_priority_runs_about_twice_as_often() {
    let mut k = boot();
    assert_eq!(k.sys_fork(), 1);
    assert_eq!(k.sys_set_priority(4), 4);
    assert_eq!(k.sys_yield(), 0);
    assert_eq!(k.sys_getpid(), 1);
    assert_eq!(k.sys_set_priority(2), 2);
    let mut runs = [0usize; 2];
    for _ in 0..300 {
        assert_eq!(k.sys_yield(), 0);
        runs[k.sys_getpid() as usize] += 1;
    }
    assert_eq!(runs[0] + runs[1], 300);
    assert!(runs[0] >= 190 && runs[0] <= 210, "{:?}", runs);
}

#[test]
fn set_priority_below_two_fails_and_keeps_stride() {
    let mut k = boot();
    let c = k.current.unwrap();
    assert_eq!(k.tasks[c].stride, BIG_STRIDE / DEFAULT_PRIORITY);
    assert_eq!(k.sys_set_priority(1), -1);
    assert_eq!(k.sys_set_priority(0), -1);
    assert_eq!(k.sys_set_priority(-5), -1);
    assert_eq!(k.tasks[c].stride, BIG_STRIDE / DEFAULT_PRIORITY);
    assert_eq!(k.sys_set_priority(8), 8);
    assert_eq!(k.tasks[c].stride, BIG_STRIDE / 8);
}

#[test]
fn sbrk_grow_then_shrink_restores_break_and_pages() {
    let mut k = boot();
    let before = mapped_vpns(cur_memory(&k));
    assert_eq!(k.sys_sbrk(5000), HEAP_BOTTOM as isize);
    assert_eq!(cur_memory(&k).brk, HEAP_BOTTOM + 5000);
    assert_eq!(mapped_vpns(cur_memory(&k)).len(), before.len() + 2);
    assert!(cur_memory(&k).is_mapped(HEAP_BOTTOM / PAGE_SIZE + 1));
    assert_eq!(k.sys_sbrk(-5000), (HEAP_BOTTOM + 5000) as isize);
    assert_eq!(cur_memory(&k).brk, HEAP_BOTTOM);
    assert_eq!(mapped_vpns(cur_memory(&k)), before);
}

#[test]
fn sbrk_outside_heap_bounds_fails() {
    let mut k = boot();
    assert_eq!(k.sys_sbrk(-1), -1);
    assert_eq!(k.sys_sbrk((HEAP_LIMIT - HEAP_BOTTOM + 1) as i32), -1);
    assert_eq!(cur_memory(&k).brk, HEAP_BOTTOM);
    assert_eq!(k.sys_sbrk(0), HEAP_BOTTOM as isize);
    assert_eq!(k.sys_sbrk(10), HEAP_BOTTOM as isize);
    assert_eq!(k.sys_sbrk(0), (HEAP_BOTTOM + 10) as isize);
}

#[test]
fn sbrk_refuses_to_grow_over_a_mapping() {
    let mut k = boot();
    assert_eq!(k.sys_mmap(HEAP_BOTTOM + PAGE_SIZE, PAGE_SIZE, 3), 0);
    assert_eq!(k.sys_sbrk(PAGE_SIZE as i32 + 1), -1);
    assert_eq!(cur_memory(&k).brk, HEAP_BOTTOM);
    assert!(!cur_memory(&k).is_mapped(HEAP_BOTTOM / PAGE_SIZE));
}

#[test]
fn get_time_writes_across_a_page_boundary() {
    let mut k = boot();
    assert_eq!(k.sys_mmap(USER_BUF, 2 * PAGE_SIZE, 3), 0);
    let ts = USER_BUF + PAGE_SIZE - 8;
    assert_eq!(k.sys_get_time(ts, 0, 3_500_001), 0);
    let bytes = read(cur_memory(&k), ts, 16);
    assert_eq!(bytes[..8], 3u64.to_le_bytes());
    assert_eq!(bytes[8..], 500_001u64.to_le_bytes());
}

#[test]
fn get_time_into_unmapped_memory_fails() {
    let mut k = boot();
    assert_eq!(k.sys_mmap(USER_BUF, PAGE_SIZE, 3), 0);
    assert_eq!(k.sys_get_time(USER_BUF + PAGE_SIZE - 8, 0, 1), -1);
    assert_eq!(read(cur_memory(&k), USER_BUF + PAGE_SIZE - 8, 8), vec![0; 8]);
    assert_eq!(k.sys_get_time(usize::MAX - 3, 0, 1), -1);
}

#[test]
fn task_info_writes_across_a_page_boundary() {
    let mut k = boot();
    assert_eq!(k.sys_mmap(USER_BUF, 2 * PAGE_SIZE, 3), 0);
    k.record_syscall(169);
    k.record_syscall(169);
    k.record_syscall(64);
    k.record_syscall(100_000);
    let ti = USER_BUF + PAGE_SIZE - 10;
    assert_eq!(k.sys_task_info(ti, 2_345_678), 0);
    let bytes = read(cur_memory(&k), ti, 2016);
    assert_eq!(bytes[0..4], 2u32.to_le_bytes());
    assert_eq!(bytes[4 + 4 * 169..8 + 4 * 169], 2u32.to_le_bytes());
    assert_eq!(bytes[4 + 4 * 64..8 + 4 * 64], 1u32.to_le_bytes());
    assert_eq!(bytes[4..8], 0u32.to_le_bytes());
    assert_eq!(bytes[2008..2016], 2345u64.to_le_bytes());
}

#[test]
fn exec_replaces_the_address_space() {
    let mut k = boot();
    assert_eq!(k.sys_mmap(USER_BUF, PAGE_SIZE, 3), 0);
    put_str(&mut k, USER_BUF, "hello");
    assert_eq!(k.sys_exec(USER_BUF), 0);
    assert_eq!(k.sys_getpid(), 0);
    assert!(!cur_memory(&k).is_mapped(USER_BUF / PAGE_SIZE));
    assert!(cur_memory(&k).is_mapped(0x10));
    let c = k.current.unwrap();
    assert_eq!(k.tasks[c].trap_cx.sepc, 0x10000);
    assert_eq!(k.tasks[c].trap_cx.x[2], HEAP_BOTTOM);
}

#[test]
fn exec_of_unknown_program_fails() {
    let mut k = boot();
    assert_eq!(k.sys_mmap(USER_BUF, PAGE_SIZE, 3), 0);
    put_str(&mut k, USER_BUF, "nosuch");
    assert_eq!(k.sys_exec(USER_BUF), -1);
    assert!(cur_memory(&k).is_mapped(USER_BUF / PAGE_SIZE));
    assert_eq!(k.sys_exec(USER_BUF + PAGE_SIZE), -1);
}

#[test]
fn spawn_creates_a_child_from_the_image() {
    let mut k = boot();
    assert_eq!(k.sys_mmap(USER_BUF, PAGE_SIZE, 3), 0);
    put_str(&mut k, USER_BUF, "hello");
    assert_eq!(k.sys_spawn(USER_BUF), 1);
    let ci = k.find_task(1).unwrap();
    assert_eq!(k.tasks[ci].parent, Some(0));
    assert_eq!(k.tasks[ci].status, TaskStatus::Ready);
    assert!(!k.tasks[ci].memory_set.is_mapped(USER_BUF / PAGE_SIZE));
    assert_eq!(k.tasks[k.current.unwrap()].children, vec![1]);
    put_str(&mut k, USER_BUF, "missing");
    assert_eq!(k.sys_spawn(USER_BUF), -1);
    assert_eq!(k.tasks.len(), 2);
}

#[test]
fn exit_releases_memory_and_leaves_a_zombie() {
    let mut k = boot();
    assert_eq!(k.sys_fork(), 1);
    assert_eq!(k.sys_yield(), 0);
    assert_eq!(k.sys_mmap(USER_BUF, PAGE_SIZE, 3), 0);
    k.sys_exit(5);
    let ci = k.find_task(1).unwrap();
    assert_eq!(k.tasks[ci].status, TaskStatus::Zombie);
    assert_eq!(k.tasks[ci].exit_code, 5);
    assert!(k.tasks[ci].memory_set.pages.is_empty());
    assert_eq!(k.sys_getpid(), 0);
}

#[test]
fn last_exit_leaves_nothing_running() {
    let mut k = boot();
    k.sys_exit(0);
    assert!(k.current.is_none());
    assert_eq!(k.tasks[0].status, TaskStatus::Zombie);
}

#[test]
fn add_root_task_of_unknown_program_fails() {
    let mut k = Kernel::new(vec![image("initproc")]);
    assert_eq!(k.add_root_task(&b"nope".to_vec()), -1);
    assert!(k.tasks.is_empty());
    k.run_next();
    assert!(k.current.is_none());
}
