//! Tasks, the process tree and the stride scheduler.
use vstd::prelude::*;

use crate::abi::{le_bytes, lemma_le_bytes_len, push_le, status_code, task_info_bytes, timeval_bytes, TaskInfo, TimeVal};
use crate::config::{BIG_STRIDE, DEFAULT_PRIORITY, MAX_SYSCALL_NUM, NUM_REGS, PAGE_SIZE, REG_A0, REG_SP};
use crate::mm::{
    brk_result, c_str_at, lemma_c_str_unique, mmap_result, munmap_result, pages_for, range_mapped, written,
    MemorySet, PageView, PERM_U,
};

verus! {

/// Where a task stands in its life cycle.
#[derive(Clone, Copy, PartialEq, Eq, Structural, Debug)]
pub enum TaskStatus {
    UnInit,
    Ready,
    Running,
    Zombie,
}

/// Registers saved on entry to the kernel, restored on return to user mode.
pub struct TrapContext {
    /// General-purpose registers `x0` to `x31`.
    pub x: Vec<usize>,
    /// Address at which user execution resumes.
    pub sepc: usize,
}

/// A program image, already loaded: its name, the address space it starts in,
/// its entry point and its initial user stack pointer.
pub struct AppImage {
    pub name: Vec<u8>,
    pub memory: MemorySet,
    pub entry: usize,
    pub user_sp: usize,
}

/// The kernel's record of one task.
pub struct TaskControlBlock {
    pub pid: usize,
    pub status: TaskStatus,
    /// Process identifier of the parent; `None` for a root task.
    pub parent: Option<usize>,
    /// Process identifiers of the children not yet reaped, oldest first.
    pub children: Vec<usize>,
    /// Meaningful once the task is a zombie.
    pub exit_code: i32,
    pub memory_set: MemorySet,
    pub trap_cx: TrapContext,
    /// Scheduling pass: the ready task with the smallest pass runs next.
    pub pass: u64,
    /// Amount by which the pass advances each time the task is dispatched.
    pub stride: u64,
    /// Order in which the task last entered the ready set; breaks ties in pass.
    pub ready_stamp: u64,
    /// Invocation count of each syscall, by syscall identifier.
    pub syscall_times: Vec<u32>,
}

/// All kernel state of this core: the task table, the running slot and the program images.
pub struct Kernel {
    pub tasks: Vec<TaskControlBlock>,
    /// Index in `tasks` of the running task, if any.
    pub current: Option<usize>,
    pub next_pid: usize,
    pub next_stamp: u64,
    pub apps: Vec<AppImage>,
}

/// Pass after one dispatch: `pass + stride`, held at the largest value.
pub open spec fn advanced(pass: u64, stride: u64) -> u64 {
    if pass + stride > u64::MAX {
        u64::MAX
    } else {
        (pass + stride) as u64
    }
}

/// Whether `a` comes before (or is) `b` in the ready order: smaller pass, then earlier entry.
pub open spec fn runs_before(a: TaskControlBlock, b: TaskControlBlock) -> bool {
    a.pass < b.pass || (a.pass == b.pass && a.ready_stamp <= b.ready_stamp)
}

/// Whether `pid` selects `child` in a wait: `-1` selects every child.
pub open spec fn pid_matches(pid: isize, child: usize) -> bool {
    pid == -1 || pid == child
}

/// Whether the task at index `i` of `tasks` is the one the scheduler picks.
pub open spec fn picked(tasks: Seq<TaskControlBlock>, i: int) -> bool {
    &&& 0 <= i < tasks.len()
    &&& tasks[i].status == TaskStatus::Ready
    &&& forall|j: int|
        0 <= j < tasks.len() && (#[trigger] tasks[j]).status == TaskStatus::Ready ==> runs_before(tasks[i], tasks[j])
}

/// `t` once dispatched: running, with its pass advanced by its stride.
pub open spec fn dispatched(t: TaskControlBlock) -> TaskControlBlock {
    TaskControlBlock { status: TaskStatus::Running, pass: advanced(t.pass, t.stride), ..t }
}

/// Whether `new` is what dispatching from the records `mid` gives: the picked task
/// runs, or, where none is ready, nothing runs and the records stay as they are.
pub open spec fn dispatch_from(mid: Seq<TaskControlBlock>, new: &Kernel) -> bool {
    match new.current {
        Some(i) => picked(mid, i as int) && new.tasks@ == mid.update(i as int, dispatched(mid[i as int])),
        None => (forall|j: int| 0 <= j < mid.len() ==> (#[trigger] mid[j]).status != TaskStatus::Ready)
            && new.tasks@ == mid,
    }
}

/// A copy of the counters `v`.
fn copy_counters(v: &Vec<u32>) -> (r: Vec<u32>)
    ensures
        r@ == v@,
{
    let mut out: Vec<u32> = Vec::new();
    let mut i: usize = 0;
    while i < v.len()
        invariant
            i <= v@.len(),
            out@ == v@.take(i as int),
        decreases v@.len() - i,
    {
        out.push(v[i]);
        i = i + 1;
        assert(out@ =~= v@.take(i as int));
    }
    assert(out@ =~= v@);
    out
}

/// Whether some task of `tasks` with process identifier `pid` is a zombie.
pub open spec fn is_zombie_pid(tasks: Seq<TaskControlBlock>, pid: usize) -> bool {
    exists|j: int| 0 <= j < tasks.len() && (#[trigger] tasks[j]).pid == pid && tasks[j].status == TaskStatus::Zombie
}

/// Whether a wait for `pid` may reap `child`: it matches and has exited.
pub open spec fn reapable(tasks: Seq<TaskControlBlock>, pid: isize, child: usize) -> bool {
    pid_matches(pid, child) && is_zombie_pid(tasks, child)
}

/// Whether `k` is the first position of `children` that a wait for `pid` may reap.
pub open spec fn first_reapable(tasks: Seq<TaskControlBlock>, children: Seq<usize>, pid: isize, k: int) -> bool {
    &&& 0 <= k < children.len()
    &&& reapable(tasks, pid, children[k])
    &&& forall|i: int| 0 <= i < k ==> !reapable(tasks, pid, #[trigger] children[i])
}

/// Whether some record of `tasks` has identifier `pid` and `parent` as its parent.
pub open spec fn has_child_record(tasks: Seq<TaskControlBlock>, parent: usize, pid: usize) -> bool {
    exists|j: int| 0 <= j < tasks.len() && (#[trigger] tasks[j]).pid == pid && tasks[j].parent == Some(parent)
}

/// The process tree is consistent: each entry of a child list is the identifier of a
/// record whose parent link points back, and no child list repeats an entry.
pub open spec fn links_ok(tasks: Seq<TaskControlBlock>) -> bool {
    &&& forall|i: int, k: int|
        0 <= i < tasks.len() && 0 <= k < tasks[i].children@.len()
            ==> has_child_record(tasks, tasks[i].pid, #[trigger] tasks[i].children@[k])
    &&& forall|i: int| 0 <= i < tasks.len() ==> (#[trigger] tasks[i]).children@.no_duplicates()
}

/// The process tree stays consistent when no identifier, parent link or child list changes.
pub proof fn lemma_links_transfer(a: Seq<TaskControlBlock>, b: Seq<TaskControlBlock>)
    requires
        links_ok(a),
        a.len() == b.len(),
        forall|i: int| 0 <= i < a.len() ==> (#[trigger] b[i]).pid == a[i].pid && b[i].parent == a[i].parent
            && b[i].children@ == a[i].children@,
    ensures
        links_ok(b),
{
    assert forall|i: int, k: int| 0 <= i < b.len() && 0 <= k < b[i].children@.len()
        implies has_child_record(b, b[i].pid, #[trigger] b[i].children@[k]) by {
        assert(b[i].children@[k] == a[i].children@[k]);
        assert(has_child_record(a, a[i].pid, a[i].children@[k]));
        let j = choose|j: int| 0 <= j < a.len() && (#[trigger] a[j]).pid == a[i].children@[k] && a[j].parent == Some(a[i].pid);
        assert(b[j].pid == a[j].pid);
    }
    assert forall|i: int| 0 <= i < b.len() implies (#[trigger] b[i]).children@.no_duplicates() by {
        assert(a[i].children@.no_duplicates());
    }
}

/// Next value of a counter that stops at its largest value.
fn bump(x: u64) -> (r: u64)
    ensures
        r == if x == u64::MAX { x } else { (x + 1) as u64 },
{
    if x == u64::MAX {
        x
    } else {
        x + 1
    }
}

impl TrapContext {
    pub open spec fn wf(&self) -> bool {
        self.x@.len() == NUM_REGS
    }

    /// The context in which a program starts: at `entry`, with `sp` at `user_sp`.
    pub fn app_init(entry: usize, user_sp: usize) -> (r: TrapContext)
        ensures
            r.wf(),
            r.sepc == entry,
            r.x@ == Seq::new(NUM_REGS as nat, |i: int| if i == REG_SP { user_sp } else { 0usize }),
    {
        let mut x: Vec<usize> = Vec::new();
        let mut i: usize = 0;
        while i < NUM_REGS
            invariant
                i <= NUM_REGS,
                x@ == Seq::new(i as nat, |j: int| if j == REG_SP { user_sp } else { 0usize }),
            decreases NUM_REGS - i,
        {
            x.push(if i == REG_SP { user_sp } else { 0 });
            i = i + 1;
            assert(x@ =~= Seq::new(i as nat, |j: int| if j == REG_SP { user_sp } else { 0usize }));
        }
        TrapContext { x, sepc: entry }
    }

    /// A copy of this context.
    pub fn copy(&self) -> (r: TrapContext)
        ensures
            r.x@ == self.x@,
            r.sepc == self.sepc,
    {
        let mut x: Vec<usize> = Vec::new();
        let mut i: usize = 0;
        while i < self.x.len()
            invariant
                i <= self.x@.len(),
                x@ == self.x@.take(i as int),
            decreases self.x@.len() - i,
        {
            x.push(self.x[i]);
            i = i + 1;
            assert(x@ =~= self.x@.take(i as int));
        }
        assert(x@ =~= self.x@);
        TrapContext { x, sepc: self.sepc }
    }
}

/// Whether two byte strings are equal.
pub fn bytes_eq(a: &Vec<u8>, b: &Vec<u8>) -> (r: bool)
    ensures
        r == (a@ == b@),
{
    if a.len() != b.len() {
        return false;
    }
    let mut i: usize = 0;
    while i < a.len()
        invariant
            i <= a@.len(),
            a@.len() == b@.len(),
            forall|j: int| 0 <= j < i ==> a@[j] == b@[j],
        decreases a@.len() - i,
    {
        if a[i] != b[i] {
            return false;
        }
        i = i + 1;
    }
    assert(a@ =~= b@);
    true
}

/// A zero counter for each syscall identifier.
fn zero_counters() -> (r: Vec<u32>)
    ensures
        r@ == Seq::new(MAX_SYSCALL_NUM as nat, |i: int| 0u32),
{
    let mut v: Vec<u32> = Vec::new();
    let mut i: usize = 0;
    while i < MAX_SYSCALL_NUM
        invariant
            i <= MAX_SYSCALL_NUM,
            v@ == Seq::new(i as nat, |j: int| 0u32),
        decreases MAX_SYSCALL_NUM - i,
    {
        v.push(0);
        i = i + 1;
        assert(v@ =~= Seq::new(i as nat, |j: int| 0u32));
    }
    v
}

impl TaskControlBlock {
    pub open spec fn wf(&self) -> bool {
        &&& self.memory_set.wf()
        &&& self.memory_set.heap_limit <= isize::MAX
        &&& self.trap_cx.wf()
        &&& self.syscall_times@.len() == MAX_SYSCALL_NUM
    }
}

impl AppImage {
    pub open spec fn wf(&self) -> bool {
        &&& self.memory.wf()
        &&& self.memory.heap_limit <= isize::MAX
    }
}

impl Kernel {
    /// Well-formedness: every record is well formed, process identifiers are unique
    /// and below `next_pid`, and the running slot holds the one running task.
    pub open spec fn wf(&self) -> bool {
        &&& forall|i: int| 0 <= i < self.tasks@.len() ==> (#[trigger] self.tasks@[i]).wf()
        &&& forall|i: int| 0 <= i < self.tasks@.len() ==> (#[trigger] self.tasks@[i]).pid < self.next_pid
        &&& self.next_pid <= isize::MAX
        &&& forall|i: int, j: int|
            0 <= i < self.tasks@.len() && 0 <= j < self.tasks@.len() && i != j
                ==> #[trigger] self.tasks@[i].pid != #[trigger] self.tasks@[j].pid
        &&& forall|i: int|
            0 <= i < self.tasks@.len() && (#[trigger] self.tasks@[i]).status == TaskStatus::Running
                ==> self.current == Some(i as usize)
        &&& match self.current {
            Some(c) => c < self.tasks@.len() && self.tasks@[c as int].status == TaskStatus::Running,
            None => true,
        }
        &&& forall|a: int| 0 <= a < self.apps@.len() ==> (#[trigger] self.apps@[a]).wf()
        &&& links_ok(self.tasks@)
    }

    /// The running task's record.
    pub open spec fn cur(&self) -> TaskControlBlock {
        self.tasks@[self.current->0 as int]
    }

    /// The running task's mapped pages.
    pub open spec fn cur_pages(&self) -> Map<usize, PageView> {
        self.cur().memory_set.view()
    }

    /// Whether `new` holds the same state as `self`.
    pub open spec fn unchanged(&self, new: &Kernel) -> bool {
        &&& new.tasks@ == self.tasks@
        &&& new.current == self.current
        &&& new.next_pid == self.next_pid
        &&& new.next_stamp == self.next_stamp
        &&& new.apps == self.apps
    }

    /// Whether `new` differs from `self` at most in the record at index `c`.
    pub open spec fn others_unchanged(&self, new: &Kernel, c: int) -> bool {
        &&& new.tasks@.len() == self.tasks@.len()
        &&& forall|i: int| 0 <= i < self.tasks@.len() && i != c ==> new.tasks@[i] == self.tasks@[i]
        &&& new.current == self.current
        &&& new.next_pid == self.next_pid
        &&& new.next_stamp == self.next_stamp
        &&& new.apps == self.apps
    }

    /// Index of the task with process identifier `pid`.
    pub fn find_task(&self, pid: usize) -> (r: Option<usize>)
        ensures
            match r {
                Some(i) => i < self.tasks@.len() && self.tasks@[i as int].pid == pid,
                None => forall|i: int| 0 <= i < self.tasks@.len() ==> self.tasks@[i].pid != pid,
            },
    {
        let mut i: usize = 0;
        while i < self.tasks.len()
            invariant
                i <= self.tasks@.len(),
                forall|j: int| 0 <= j < i ==> self.tasks@[j].pid != pid,
            decreases self.tasks@.len() - i,
        {
            if self.tasks[i].pid == pid {
                return Some(i);
            }
            i = i + 1;
        }
        None
    }

    /// Index of the first program image named `name`.
    pub fn find_app(&self, name: &Vec<u8>) -> (r: Option<usize>)
        ensures
            match r {
                Some(a) => a < self.apps@.len() && self.apps@[a as int].name@ == name@,
                None => forall|a: int| 0 <= a < self.apps@.len() ==> self.apps@[a].name@ != name@,
            },
    {
        let mut i: usize = 0;
        while i < self.apps.len()
            invariant
                i <= self.apps@.len(),
                forall|j: int| 0 <= j < i ==> self.apps@[j].name@ != name@,
            decreases self.apps@.len() - i,
        {
            if bytes_eq(&self.apps[i].name, name) {
                return Some(i);
            }
            i = i + 1;
        }
        None
    }

    /// The ready task that runs next: smallest pass, earliest entry among equal passes.
    pub fn select_next(&self) -> (r: Option<usize>)
        ensures
            match r {
                Some(i) => {
                    &&& i < self.tasks@.len()
                    &&& self.tasks@[i as int].status == TaskStatus::Ready
                    &&& forall|j: int|
                        0 <= j < self.tasks@.len() && (#[trigger] self.tasks@[j]).status == TaskStatus::Ready
                            ==> runs_before(self.tasks@[i as int], self.tasks@[j])
                },
                None => forall|j: int| 0 <= j < self.tasks@.len() ==> (#[trigger] self.tasks@[j]).status != TaskStatus::Ready,
            },
    {
        let mut best: Option<usize> = None;
        let mut i: usize = 0;
        while i < self.tasks.len()
            invariant
                i <= self.tasks@.len(),
                match best {
                    Some(b) => {
                        &&& b < i
                        &&& self.tasks@[b as int].status == TaskStatus::Ready
                        &&& forall|j: int|
                            0 <= j < i && (#[trigger] self.tasks@[j]).status == TaskStatus::Ready
                                ==> runs_before(self.tasks@[b as int], self.tasks@[j])
                    },
                    None => forall|j: int| 0 <= j < i ==> (#[trigger] self.tasks@[j]).status != TaskStatus::Ready,
                },
            decreases self.tasks@.len() - i,
        {
            if self.tasks[i].status == TaskStatus::Ready {
                match best {
                    Some(b) => {
                        let tb = &self.tasks[b];
                        let ti = &self.tasks[i];
                        if ti.pass < tb.pass || (ti.pass == tb.pass && ti.ready_stamp < tb.ready_stamp) {
                            best = Some(i);
                        }
                    },
                    None => {
                        best = Some(i);
                    },
                }
            }
            i = i + 1;
        }
        best
    }
}

impl TaskControlBlock {
    /// A new ready task running the program `app`.
    pub fn from_image(app: &AppImage, pid: usize, parent: Option<usize>, stamp: u64) -> (t: TaskControlBlock)
        requires
            app.wf(),
        ensures
            t.wf(),
            t.pid == pid,
            t.parent == parent,
            t.children@.len() == 0,
            t.status == TaskStatus::Ready,
            t.memory_set.view() == app.memory.view(),
            app.memory.same_heap(&t.memory_set),
            t.trap_cx.sepc == app.entry,
            t.trap_cx.x@ == Seq::new(NUM_REGS as nat, |i: int| if i == REG_SP { app.user_sp } else { 0usize }),
            t.pass == 0,
            t.stride == BIG_STRIDE / DEFAULT_PRIORITY,
            t.ready_stamp == stamp,
            t.syscall_times@ == Seq::new(MAX_SYSCALL_NUM as nat, |i: int| 0u32),
    {
        TaskControlBlock {
            pid,
            status: TaskStatus::Ready,
            parent,
            children: Vec::new(),
            exit_code: 0,
            memory_set: app.memory.clone_space(),
            trap_cx: TrapContext::app_init(app.entry, app.user_sp),
            pass: 0,
            stride: BIG_STRIDE / DEFAULT_PRIORITY,
            ready_stamp: stamp,
            syscall_times: zero_counters(),
        }
    }
}

impl Kernel {
    /// A kernel with the program images `apps` and no task.
    pub fn new(apps: Vec<AppImage>) -> (k: Kernel)
        requires
            forall|a: int| 0 <= a < apps@.len() ==> (#[trigger] apps@[a]).wf(),
        ensures
            k.wf(),
            k.tasks@.len() == 0,
            k.current.is_none(),
            k.next_pid == 0,
            k.apps@ == apps@,
    {
        Kernel { tasks: Vec::new(), current: None, next_pid: 0, next_stamp: 0, apps }
    }

    /// Adds a root task (one without a parent) running the program `name`, ready to
    /// run. Returns its process identifier, or `-1` where no program has that name
    /// or process identifiers are exhausted.
    pub fn add_root_task(&mut self, name: &Vec<u8>) -> (r: isize)
        requires
            old(self).wf(),
        ensures
            final(self).wf(),
            final(self).current == old(self).current,
            r == if old(self).next_pid < isize::MAX
                && exists|a: int| 0 <= a < old(self).apps@.len() && #[trigger] old(self).apps@[a].name@ == name@ {
                old(self).next_pid as int
            } else {
                -1int
            },
            r == -1 ==> old(self).unchanged(final(self)),
            r != -1 ==> {
                &&& final(self).tasks@.len() == old(self).tasks@.len() + 1
                &&& final(self).tasks@.drop_last() == old(self).tasks@
                &&& final(self).tasks@.last().pid == r
                &&& final(self).tasks@.last().parent.is_none()
                &&& final(self).tasks@.last().status == TaskStatus::Ready
            },
    {
        if self.next_pid >= isize::MAX as usize {
            return -1;
        }
        match self.find_app(name) {
            None => -1,
            Some(a) => {
                let pid = self.next_pid;
                let t = TaskControlBlock::from_image(&self.apps[a], pid, None, self.next_stamp);
                self.tasks.push(t);
                self.next_pid = pid + 1;
                self.next_stamp = bump(self.next_stamp);
                assert(self.tasks@.drop_last() =~= old(self).tasks@);
                pid as isize
            },
        }
    }

    /// Puts the ready task that the scheduler picks in the running slot and advances
    /// its pass; where no task is ready, the slot stays empty.
    pub fn run_next(&mut self)
        requires
            old(self).wf(),
            old(self).current.is_none(),
        ensures
            final(self).wf(),
            final(self).next_pid == old(self).next_pid,
            final(self).next_stamp == old(self).next_stamp,
            final(self).apps == old(self).apps,
            dispatch_from(old(self).tasks@, final(self)),
    {
        match self.select_next() {
            None => {},
            Some(i) => {
                let p = self.tasks[i].pass;
                let st = self.tasks[i].stride;
                let np: u64 = if p > u64::MAX - st { u64::MAX } else { p + st };
                self.tasks[i].pass = np;
                self.tasks[i].status = TaskStatus::Running;
                self.current = Some(i);
                assert(self.tasks@ =~= old(self).tasks@.update(i as int, dispatched(old(self).tasks@[i as int])));
                proof {
                    lemma_links_transfer(old(self).tasks@, self.tasks@);
                }
            },
        }
    }

    /// Process identifier of the running task.
    pub fn sys_getpid(&self) -> (r: isize)
        requires
            self.wf(),
            self.current is Some,
        ensures
            r == self.cur().pid,
    {
        let c = self.current.unwrap();
        self.tasks[c].pid as isize
    }

    /// Counts one invocation of syscall `id` for the running task; identifiers
    /// from `MAX_SYSCALL_NUM` up are not counted, and a count stops at its largest value.
    pub fn record_syscall(&mut self, id: usize)
        requires
            old(self).wf(),
            old(self).current is Some,
        ensures
            final(self).wf(),
            old(self).others_unchanged(final(self), old(self).current->0 as int),
            final(self).cur().syscall_times@ == if id < MAX_SYSCALL_NUM {
                let n = old(self).cur().syscall_times@[id as int];
                old(self).cur().syscall_times@.update(id as int, if n == u32::MAX { n } else { (n + 1) as u32 })
            } else {
                old(self).cur().syscall_times@
            },
            ({
                let (t, u) = (old(self).cur(), final(self).cur());
                TaskControlBlock { syscall_times: t.syscall_times, ..u } == t
            }),
    {
        let c = self.current.unwrap();
        if id < MAX_SYSCALL_NUM {
            let n = self.tasks[c].syscall_times[id];
            let m: u32 = if n == u32::MAX { n } else { n + 1 };
            self.tasks[c].syscall_times.set(id, m);
        }
        assert forall|i: int| 0 <= i < self.tasks@.len() implies (#[trigger] self.tasks@[i]).wf() by {
            if i != c {
                assert(self.tasks@[i] == old(self).tasks@[i]);
            }
        }
        proof {
            lemma_links_transfer(old(self).tasks@, self.tasks@);
        }
    }

    /// Sets the running task's stride to `BIG_STRIDE / prio` and returns `prio`;
    /// a priority below 2 is refused with `-1` and changes nothing.
    pub fn sys_set_priority(&mut self, prio: isize) -> (r: isize)
        requires
            old(self).wf(),
            old(self).current is Some,
        ensures
            final(self).wf(),
            old(self).others_unchanged(final(self), old(self).current->0 as int),
            prio < 2 ==> r == -1 && final(self).tasks@ == old(self).tasks@,
            prio >= 2 ==> r == prio && final(self).cur() == (TaskControlBlock {
                stride: (BIG_STRIDE / prio as u64) as u64,
                ..old(self).cur()
            }),
    {
        if prio < 2 {
            return -1;
        }
        let c = self.current.unwrap();
        self.tasks[c].stride = BIG_STRIDE / prio as u64;
        assert forall|i: int| 0 <= i < self.tasks@.len() implies (#[trigger] self.tasks@[i]).wf() by {
            if i != c {
                assert(self.tasks@[i] == old(self).tasks@[i]);
            }
        }
        proof {
            lemma_links_transfer(old(self).tasks@, self.tasks@);
        }
        prio
    }
}

impl Kernel {
    /// Whether `new` differs from `self` only in the running task's address space,
    /// whose heap bounds and break are kept.
    pub open spec fn only_pages_changed(&self, new: &Kernel) -> bool {
        &&& self.others_unchanged(new, self.current->0 as int)
        &&& new.cur() == (TaskControlBlock { memory_set: new.cur().memory_set, ..self.cur() })
        &&& self.cur().memory_set.same_heap(&new.cur().memory_set)
    }

    /// Proves the task table well formed after the running task's record changed
    /// in a way that keeps it well formed and keeps its identifier and status.
    proof fn lemma_cur_update_wf(old_k: &Kernel, new_k: &Kernel)
        requires
            old_k.wf(),
            old_k.current is Some,
            old_k.others_unchanged(new_k, old_k.current->0 as int),
            new_k.cur().wf(),
            new_k.cur().pid == old_k.cur().pid,
            new_k.cur().status == old_k.cur().status,
            new_k.cur().parent == old_k.cur().parent,
            new_k.cur().children@ == old_k.cur().children@,
        ensures
            new_k.wf(),
    {
        let c = old_k.current->0 as int;
        assert forall|i: int| 0 <= i < new_k.tasks@.len() && i != c implies new_k.tasks@[i] == old_k.tasks@[i] by {}
        lemma_links_transfer(old_k.tasks@, new_k.tasks@);
    }

    /// Gives up the processor: the running task becomes ready again, entering the
    /// ready order last among equal passes, and the scheduler dispatches its pick.
    pub fn sys_yield(&mut self) -> (r: isize)
        requires
            old(self).wf(),
            old(self).current is Some,
        ensures
            r == 0,
            final(self).wf(),
            final(self).current is Some,
            final(self).next_pid == old(self).next_pid,
            final(self).next_stamp == if old(self).next_stamp == u64::MAX { u64::MAX } else { (old(self).next_stamp + 1) as u64 },
            final(self).apps == old(self).apps,
            dispatch_from(
                old(self).tasks@.update(
                    old(self).current->0 as int,
                    TaskControlBlock { status: TaskStatus::Ready, ready_stamp: old(self).next_stamp, ..old(self).cur() },
                ),
                final(self),
            ),
    {
        let c = self.current.unwrap();
        assert(old(self).current == Some(c));
        self.tasks[c].status = TaskStatus::Ready;
        self.tasks[c].ready_stamp = self.next_stamp;
        self.next_stamp = bump(self.next_stamp);
        self.current = None;
        assert(self.tasks@ =~= old(self).tasks@.update(
            c as int,
            TaskControlBlock { status: TaskStatus::Ready, ready_stamp: old(self).next_stamp, ..old(self).cur() },
        ));
        assert(self.wf()) by {
            assert forall|i: int| 0 <= i < self.tasks@.len() implies
                (#[trigger] self.tasks@[i]).pid == old(self).tasks@[i].pid
                && self.tasks@[i].wf()
                && (i != c ==> self.tasks@[i] == old(self).tasks@[i]) by {}
            lemma_links_transfer(old(self).tasks@, self.tasks@);
            assert forall|i: int|
                0 <= i < self.tasks@.len() && (#[trigger] self.tasks@[i]).status == TaskStatus::Running
                implies self.current == Some(i as usize) by {
                if i != c {
                    assert(old(self).tasks@[i] == self.tasks@[i]);
                    assert(self.tasks@.len() == self.tasks.len());
                    assert(old(self).current == Some(i as usize));
                } else {
                    assert(self.tasks@[c as int].status != TaskStatus::Running);
                }
            }
        }
        self.run_next();
        0
    }

    /// Ends the running task with `exit_code`: it becomes a zombie that keeps its
    /// identifier, parent and children until its parent reaps it, its frames are
    /// released at once, and the scheduler dispatches its pick. Children of the
    /// exiting task stay in its child list: they are not handed to another task.
    pub fn sys_exit(&mut self, exit_code: i32)
        requires
            old(self).wf(),
            old(self).current is Some,
        ensures
            final(self).wf(),
            final(self).next_pid == old(self).next_pid,
            final(self).next_stamp == old(self).next_stamp,
            final(self).apps == old(self).apps,
            ({
                let c = old(self).current->0 as int;
                let z = final(self).tasks@[c];
                &&& z == (TaskControlBlock {
                    status: TaskStatus::Zombie,
                    exit_code,
                    memory_set: z.memory_set,
                    ..old(self).cur()
                })
                &&& z.memory_set.view() == Map::<usize, PageView>::empty()
                &&& dispatch_from(old(self).tasks@.update(c, z), final(self))
            }),
    {
        let c = self.current.unwrap();
        assert(old(self).current == Some(c));
        let hb = self.tasks[c].memory_set.heap_bottom;
        let hl = self.tasks[c].memory_set.heap_limit;
        self.tasks[c].status = TaskStatus::Zombie;
        self.tasks[c].exit_code = exit_code;
        self.tasks[c].memory_set = MemorySet::new_bare(hb, hl);
        self.current = None;
        let ghost mid = self.tasks@;
        assert(mid =~= old(self).tasks@.update(c as int, mid[c as int]));
        assert(self.wf()) by {
            assert forall|i: int| 0 <= i < self.tasks@.len() implies
                (#[trigger] self.tasks@[i]).pid == old(self).tasks@[i].pid
                && self.tasks@[i].wf()
                && (i != c ==> self.tasks@[i] == old(self).tasks@[i]) by {}
            lemma_links_transfer(old(self).tasks@, self.tasks@);
            assert forall|i: int|
                0 <= i < self.tasks@.len() && (#[trigger] self.tasks@[i]).status == TaskStatus::Running
                implies self.current == Some(i as usize) by {
                if i != c {
                    assert(old(self).tasks@[i] == self.tasks@[i]);
                    assert(self.tasks@.len() == self.tasks.len());
                    assert(old(self).current == Some(i as usize));
                } else {
                    assert(self.tasks@[c as int].status != TaskStatus::Running);
                }
            }
        }
        self.run_next();
    }

    /// Maps `[start, start + len)`, rounded up to whole pages, into the running task
    /// with the permissions `prot` (bit 0 read, bit 1 write, bit 2 execute) for user
    /// mode. Returns `0`, or `-1` with nothing mapped where `start` is not page aligned,
    /// `prot` is empty or has other bits, or a page of the range is mapped already.
    pub fn sys_mmap(&mut self, start: usize, len: usize, prot: usize) -> (r: isize)
        requires
            old(self).wf(),
            old(self).current is Some,
        ensures
            final(self).wf(),
            old(self).only_pages_changed(final(self)),
            match mmap_result(old(self).cur_pages(), start, len, prot) {
                Some(m) => r == 0 && final(self).cur_pages() == m,
                None => r == -1 && final(self).cur_pages() == old(self).cur_pages(),
            },
    {
        if start % PAGE_SIZE != 0 {
            return -1;
        }
        if prot == 0 || prot > 7 {
            return -1;
        }
        let first = start / PAGE_SIZE;
        let n = len / PAGE_SIZE + if len % PAGE_SIZE != 0 { 1 } else { 0 };
        assert(n == pages_for(len as nat));
        let perm = (prot as u8) * 2 + PERM_U;
        let c = self.current.unwrap();
        let ok = self.tasks[c].memory_set.map_area(first, n, perm);
        proof {
            Self::lemma_cur_update_wf(old(self), self);
        }
        if ok {
            0
        } else {
            -1
        }
    }

    /// Unmaps `[start, start + len)`, rounded up to whole pages, from the running task
    /// and releases the frames. Returns `0`, or `-1` with nothing unmapped where `start`
    /// is not page aligned or a page of the range is not mapped.
    pub fn sys_munmap(&mut self, start: usize, len: usize) -> (r: isize)
        requires
            old(self).wf(),
            old(self).current is Some,
        ensures
            final(self).wf(),
            old(self).only_pages_changed(final(self)),
            match munmap_result(old(self).cur_pages(), start, len) {
                Some(m) => r == 0 && final(self).cur_pages() == m,
                None => r == -1 && final(self).cur_pages() == old(self).cur_pages(),
            },
    {
        if start % PAGE_SIZE != 0 {
            return -1;
        }
        let first = start / PAGE_SIZE;
        let n = len / PAGE_SIZE + if len % PAGE_SIZE != 0 { 1 } else { 0 };
        assert(n == pages_for(len as nat));
        let c = self.current.unwrap();
        let ok = self.tasks[c].memory_set.unmap_area(first, n);
        proof {
            Self::lemma_cur_update_wf(old(self), self);
        }
        if ok {
            0
        } else {
            -1
        }
    }

    /// Moves the running task's program break by `size` bytes. Returns the break
    /// before the move, or `-1` with nothing changed where `brk_result` has none.
    pub fn sys_sbrk(&mut self, size: i32) -> (r: isize)
        requires
            old(self).wf(),
            old(self).current is Some,
        ensures
            final(self).wf(),
            old(self).others_unchanged(final(self), old(self).current->0 as int),
            final(self).cur() == (TaskControlBlock { memory_set: final(self).cur().memory_set, ..old(self).cur() }),
            final(self).cur().memory_set.heap_bottom == old(self).cur().memory_set.heap_bottom,
            final(self).cur().memory_set.heap_limit == old(self).cur().memory_set.heap_limit,
            ({
                let ms = old(self).cur().memory_set;
                match brk_result(ms.view(), ms.heap_bottom, ms.heap_limit, ms.brk, size as int) {
                    None => r == -1 && final(self).cur().memory_set.brk == ms.brk
                        && final(self).cur_pages() == old(self).cur_pages(),
                    Some((nb, m)) => r == ms.brk && final(self).cur().memory_set.brk == nb
                        && final(self).cur_pages() == m,
                }
            }),
    {
        let c = self.current.unwrap();
        let res = self.tasks[c].memory_set.change_program_brk(size);
        proof {
            Self::lemma_cur_update_wf(old(self), self);
        }
        match res {
            Some(old_brk) => old_brk as isize,
            None => -1,
        }
    }

    /// Writes the time `now_us` microseconds after the epoch, as a `TimeVal`, to the
    /// running task's memory at `ts`, across a page boundary where the value straddles
    /// one. The time zone argument is accepted and unused. Returns `0`, or `-1` with
    /// nothing written where the destination is not mapped.
    pub fn sys_get_time(&mut self, ts: usize, _tz: usize, now_us: usize) -> (r: isize)
        requires
            old(self).wf(),
            old(self).current is Some,
        ensures
            final(self).wf(),
            old(self).only_pages_changed(final(self)),
            ({
                let b = timeval_bytes((now_us / 1_000_000) as nat, (now_us % 1_000_000) as nat);
                &&& (r == 0) == (ts + b.len() <= usize::MAX && range_mapped(old(self).cur_pages(), ts as int, b.len() as int))
                &&& r == 0 ==> written(old(self).cur_pages(), final(self).cur_pages(), ts as int, b)
                &&& r != 0 ==> r == -1 && final(self).cur_pages() == old(self).cur_pages()
            }),
    {
        let tv = TimeVal::from_us(now_us);
        let bytes = tv.to_bytes();
        let c = self.current.unwrap();
        let ok = self.tasks[c].memory_set.write_bytes(ts, &bytes);
        proof {
            Self::lemma_cur_update_wf(old(self), self);
        }
        if ok {
            0
        } else {
            -1
        }
    }

    /// Writes the running task's `TaskInfo` to its memory at `ti`: status running,
    /// its syscall counts, and `now_us` in milliseconds as its running time. Handles a
    /// destination that straddles a page boundary. Returns `0`, or `-1` with nothing
    /// written where the destination is not mapped.
    pub fn sys_task_info(&mut self, ti: usize, now_us: usize) -> (r: isize)
        requires
            old(self).wf(),
            old(self).current is Some,
        ensures
            final(self).wf(),
            old(self).only_pages_changed(final(self)),
            ({
                let b = task_info_bytes(
                    status_code(TaskStatus::Running),
                    old(self).cur().syscall_times@,
                    (now_us / 1000) as nat,
                );
                &&& (r == 0) == (ti + b.len() <= usize::MAX && range_mapped(old(self).cur_pages(), ti as int, b.len() as int))
                &&& r == 0 ==> written(old(self).cur_pages(), final(self).cur_pages(), ti as int, b)
                &&& r != 0 ==> r == -1 && final(self).cur_pages() == old(self).cur_pages()
            }),
    {
        let c = self.current.unwrap();
        let info = TaskInfo {
            status: TaskStatus::Running,
            syscall_times: copy_counters(&self.tasks[c].syscall_times),
            time: now_us / 1000,
        };
        let bytes = info.to_bytes();
        let ok = self.tasks[c].memory_set.write_bytes(ti, &bytes);
        proof {
            Self::lemma_cur_update_wf(old(self), self);
        }
        if ok {
            0
        } else {
            -1
        }
    }
}

impl Kernel {
    /// Whether `new` is `self` with the task `child` added as the newest child of the
    /// running task.
    pub open spec fn adopted(&self, new: &Kernel, child: TaskControlBlock) -> bool {
        let c = self.current->0 as int;
        &&& new.tasks@.len() == self.tasks@.len() + 1
        &&& new.tasks@.last() == child
        &&& new.tasks@.drop_last() == self.tasks@.update(c, TaskControlBlock { children: new.tasks@[c].children, ..self.cur() })
        &&& new.tasks@[c].children@ == self.cur().children@.push(child.pid)
        &&& new.current == self.current
        &&& new.next_pid == self.next_pid + 1
        &&& new.next_stamp == if self.next_stamp == u64::MAX { u64::MAX } else { (self.next_stamp + 1) as u64 }
        &&& new.apps == self.apps
    }

    /// Adds `child`, whose identifier is the next one, to the task table and to the
    /// running task's child list.
    fn adopt(&mut self, child: TaskControlBlock)
        requires
            old(self).wf(),
            old(self).current is Some,
            old(self).next_pid < isize::MAX,
            child.wf(),
            child.pid == old(self).next_pid,
            child.status == TaskStatus::Ready,
            child.parent == Some(old(self).cur().pid),
            child.children@.len() == 0,
        ensures
            final(self).wf(),
            old(self).adopted(final(self), child),
    {
        let c = self.current.unwrap();
        let pid = child.pid;
        self.tasks[c].children.push(pid);
        self.tasks.push(child);
        self.next_pid = pid + 1;
        self.next_stamp = bump(self.next_stamp);
        assert(self.tasks@.drop_last() =~= old(self).tasks@.update(
            c as int,
            TaskControlBlock { children: self.tasks@[c as int].children, ..old(self).cur() },
        ));
        assert(self.tasks@.len() == self.tasks.len());
        assert forall|i: int| 0 <= i < old(self).tasks@.len() implies
            (#[trigger] self.tasks@[i]).pid == old(self).tasks@[i].pid
            && self.tasks@[i].status == old(self).tasks@[i].status
            && self.tasks@[i].wf()
            && (i != c ==> self.tasks@[i] == old(self).tasks@[i]) by {}
        assert forall|i: int|
            0 <= i < self.tasks@.len() && (#[trigger] self.tasks@[i]).status == TaskStatus::Running
            implies self.current == Some(i as usize) by {
            if i < old(self).tasks@.len() {
                assert(old(self).tasks@[i].status == TaskStatus::Running);
            }
        }
        let ghost a = old(self).tasks@;
        let ghost b = self.tasks@;
        let ghost n = a.len() as int;
        assert(b[n] == child);
        assert forall|i: int, k: int| 0 <= i < b.len() && 0 <= k < b[i].children@.len()
            implies has_child_record(b, b[i].pid, #[trigger] b[i].children@[k]) by {
            if i == c && k == b[i].children@.len() - 1 {
                assert(b[n].pid == b[i].children@[k]);
            } else {
                assert(i < n);
                assert(b[i].children@[k] == a[i].children@[k]);
                assert(has_child_record(a, a[i].pid, a[i].children@[k]));
                let j = choose|j: int| 0 <= j < a.len() && (#[trigger] a[j]).pid == a[i].children@[k] && a[j].parent == Some(a[i].pid);
                assert(b[j].pid == a[j].pid && b[j].parent == a[j].parent);
            }
        }
        assert forall|i: int| 0 <= i < b.len() implies (#[trigger] b[i]).children@.no_duplicates() by {
            if i == c {
                let old_ch = a[c as int].children@;
                assert forall|k: int| 0 <= k < old_ch.len() implies #[trigger] old_ch[k] != pid by {
                    assert(has_child_record(a, a[c as int].pid, old_ch[k]));
                }
                assert(a[c as int].children@.no_duplicates());
                assert(b[i].children@ == old_ch.push(pid));
            } else if i < n {
                assert(a[i].children@.no_duplicates());
            }
        }
    }

    /// Creates a child of the running task: a copy of its address space in frames of
    /// its own, of its registers with `a0` set to `0` (so that the call returns `0` in
    /// the child), of its pass and stride; the child is ready to run. Returns the
    /// child's process identifier, or `-1` where identifiers are exhausted.
    pub fn sys_fork(&mut self) -> (r: isize)
        requires
            old(self).wf(),
            old(self).current is Some,
        ensures
            final(self).wf(),
            old(self).next_pid >= isize::MAX ==> r == -1 && *final(self) == *old(self),
            old(self).next_pid < isize::MAX ==> {
                let t = old(self).cur();
                let child = final(self).tasks@.last();
                &&& r == old(self).next_pid
                &&& old(self).adopted(final(self), child)
                &&& child.pid == old(self).next_pid
                &&& child.parent == Some(t.pid)
                &&& child.status == TaskStatus::Ready
                &&& child.children@.len() == 0
                &&& child.memory_set.view() == t.memory_set.view()
                &&& t.memory_set.same_heap(&child.memory_set)
                &&& child.trap_cx.x@ == t.trap_cx.x@.update(REG_A0 as int, 0usize)
                &&& child.trap_cx.sepc == t.trap_cx.sepc
                &&& child.pass == t.pass
                &&& child.stride == t.stride
                &&& child.ready_stamp == old(self).next_stamp
                &&& child.syscall_times@ == Seq::new(MAX_SYSCALL_NUM as nat, |i: int| 0u32)
            },
    {
        if self.next_pid >= isize::MAX as usize {
            return -1;
        }
        let c = self.current.unwrap();
        let pid = self.next_pid;
        let mut trap_cx = self.tasks[c].trap_cx.copy();
        trap_cx.x.set(REG_A0, 0);
        let child = TaskControlBlock {
            pid,
            status: TaskStatus::Ready,
            parent: Some(self.tasks[c].pid),
            children: Vec::new(),
            exit_code: 0,
            memory_set: self.tasks[c].memory_set.clone_space(),
            trap_cx,
            pass: self.tasks[c].pass,
            stride: self.tasks[c].stride,
            ready_stamp: self.next_stamp,
            syscall_times: zero_counters(),
        };
        self.adopt(child);
        pid as isize
    }

    /// Replaces the running task's address space and registers with those of the
    /// program whose name is the string at `path` in its memory; identifier, parent,
    /// children and scheduling state are kept. Returns `0`, or `-1` with nothing changed
    /// where no such string can be read or no program has that name.
    pub fn sys_exec(&mut self, path: usize) -> (r: isize)
        requires
            old(self).wf(),
            old(self).current is Some,
        ensures
            final(self).wf(),
            old(self).others_unchanged(final(self), old(self).current->0 as int),
            r == 0 || r == -1,
            (r == 0) == exists|a: int|
                0 <= a < old(self).apps@.len() && c_str_at(old(self).cur_pages(), path as int, #[trigger] old(self).apps@[a].name@),
            r == -1 ==> final(self).tasks@ == old(self).tasks@,
            r == 0 ==> {
                let t = final(self).cur();
                exists|a: int|
                    0 <= a < old(self).apps@.len() && c_str_at(old(self).cur_pages(), path as int, #[trigger] old(self).apps@[a].name@)
                        && t == (TaskControlBlock { memory_set: t.memory_set, trap_cx: t.trap_cx, ..old(self).cur() })
                        && t.memory_set.view() == old(self).apps@[a].memory.view()
                        && old(self).apps@[a].memory.same_heap(&t.memory_set)
                        && t.trap_cx.sepc == old(self).apps@[a].entry
                        && t.trap_cx.x@ == Seq::new(NUM_REGS as nat, |i: int| if i == REG_SP { old(self).apps@[a].user_sp } else { 0usize })
            },
    {
        let c = self.current.unwrap();
        let name = match self.tasks[c].memory_set.read_c_str(path) {
            Some(name) => name,
            None => {
                return -1;
            },
        };
        match self.find_app(&name) {
            None => {
                assert forall|a: int| 0 <= a < old(self).apps@.len()
                    implies !c_str_at(old(self).cur_pages(), path as int, #[trigger] old(self).apps@[a].name@) by {
                    if c_str_at(old(self).cur_pages(), path as int, old(self).apps@[a].name@) {
                        lemma_c_str_unique(old(self).cur_pages(), path as int, old(self).apps@[a].name@, name@);
                    }
                }
                -1
            },
            Some(a) => {
                let memory_set = self.apps[a].memory.clone_space();
                let trap_cx = TrapContext::app_init(self.apps[a].entry, self.apps[a].user_sp);
                self.tasks[c].memory_set = memory_set;
                self.tasks[c].trap_cx = trap_cx;
                proof {
                    Self::lemma_cur_update_wf(old(self), self);
                }
                0
            },
        }
    }

    /// Creates a child of the running task from the program whose name is the string
    /// at `path` in its memory, in a fresh address space (nothing of the caller's
    /// memory is copied); the child is ready to run. Returns its process identifier,
    /// or `-1` with nothing changed where no such string can be read, no program has
    /// that name, or identifiers are exhausted.
    pub fn sys_spawn(&mut self, path: usize) -> (r: isize)
        requires
            old(self).wf(),
            old(self).current is Some,
        ensures
            final(self).wf(),
            r == -1 || r == old(self).next_pid,
            (r != -1) == (old(self).next_pid < isize::MAX && exists|a: int|
                0 <= a < old(self).apps@.len() && c_str_at(old(self).cur_pages(), path as int, #[trigger] old(self).apps@[a].name@)),
            r == -1 ==> *final(self) == *old(self),
            r != -1 ==> {
                let child = final(self).tasks@.last();
                &&& old(self).adopted(final(self), child)
                &&& child.pid == old(self).next_pid
                &&& child.parent == Some(old(self).cur().pid)
                &&& child.status == TaskStatus::Ready
                &&& child.children@.len() == 0
                &&& exists|a: int|
                    0 <= a < old(self).apps@.len() && c_str_at(old(self).cur_pages(), path as int, #[trigger] old(self).apps@[a].name@)
                        && child.memory_set.view() == old(self).apps@[a].memory.view()
                        && child.trap_cx.sepc == old(self).apps@[a].entry
            },
    {
        if self.next_pid >= isize::MAX as usize {
            return -1;
        }
        let c = self.current.unwrap();
        let name = match self.tasks[c].memory_set.read_c_str(path) {
            Some(name) => name,
            None => {
                return -1;
            },
        };
        match self.find_app(&name) {
            None => {
                assert forall|a: int| 0 <= a < old(self).apps@.len()
                    implies !c_str_at(old(self).cur_pages(), path as int, #[trigger] old(self).apps@[a].name@) by {
                    if c_str_at(old(self).cur_pages(), path as int, old(self).apps@[a].name@) {
                        lemma_c_str_unique(old(self).cur_pages(), path as int, old(self).apps@[a].name@, name@);
                    }
                }
                -1
            },
            Some(a) => {
                let pid = self.next_pid;
                let parent = self.tasks[c].pid;
                let child = TaskControlBlock::from_image(&self.apps[a], pid, Some(parent), self.next_stamp);
                self.adopt(child);
                pid as isize
            },
        }
    }
}

impl Kernel {
    /// Whether some child of the running task matches `pid`.
    fn any_child_matches(&self, pid: isize) -> (r: bool)
        requires
            self.wf(),
            self.current is Some,
        ensures
            r == exists|k: int| 0 <= k < self.cur().children@.len() && pid_matches(pid, #[trigger] self.cur().children@[k]),
    {
        let c = self.current.unwrap();
        let mut k: usize = 0;
        while k < self.tasks[c].children.len()
            invariant
                c == self.current->0,
                c < self.tasks@.len(),
                k <= self.cur().children@.len(),
                forall|i: int| 0 <= i < k ==> !pid_matches(pid, #[trigger] self.cur().children@[i]),
            decreases self.cur().children@.len() - k,
        {
            let ch = self.tasks[c].children[k];
            if pid == -1 || (pid >= 0 && pid as usize == ch) {
                return true;
            }
            k = k + 1;
        }
        false
    }

    /// The first position in the running task's child list that a wait for `pid` may
    /// reap, with the index of that child's record.
    fn find_reapable(&self, pid: isize) -> (r: Option<(usize, usize)>)
        requires
            self.wf(),
            self.current is Some,
        ensures
            match r {
                Some((k, j)) => {
                    &&& first_reapable(self.tasks@, self.cur().children@, pid, k as int)
                    &&& j < self.tasks@.len()
                    &&& self.tasks@[j as int].pid == self.cur().children@[k as int]
                    &&& self.tasks@[j as int].status == TaskStatus::Zombie
                },
                None => forall|k: int|
                    0 <= k < self.cur().children@.len() ==> !reapable(self.tasks@, pid, #[trigger] self.cur().children@[k]),
            },
    {
        let c = self.current.unwrap();
        let mut k: usize = 0;
        while k < self.tasks[c].children.len()
            invariant
                self.wf(),
                c == self.current->0,
                c < self.tasks@.len(),
                k <= self.cur().children@.len(),
                forall|i: int| 0 <= i < k ==> !reapable(self.tasks@, pid, #[trigger] self.cur().children@[i]),
            decreases self.cur().children@.len() - k,
        {
            let ch = self.tasks[c].children[k];
            if pid == -1 || (pid >= 0 && pid as usize == ch) {
                match self.find_task(ch) {
                    Some(j) => {
                        if self.tasks[j].status == TaskStatus::Zombie {
                            return Some((k, j));
                        }
                        assert(!is_zombie_pid(self.tasks@, ch)) by {
                            if is_zombie_pid(self.tasks@, ch) {
                                let j2 = choose|j2: int| 0 <= j2 < self.tasks@.len() && (#[trigger] self.tasks@[j2]).pid == ch
                                    && self.tasks@[j2].status == TaskStatus::Zombie;
                                assert(j2 != j);
                            }
                        }
                    },
                    None => {},
                }
            }
            k = k + 1;
        }
        None
    }

    /// Proves the table well formed once the child at position `k` of the running
    /// task's child list, whose record is at `j`, has been taken out of that list and
    /// its record out of the table, the running slot following its task.
    proof fn lemma_reap_wf(mid: &Kernel, new_k: &Kernel, j: int, k: int, u: TaskControlBlock)
        requires
            mid.wf(),
            mid.current is Some,
            0 <= j < mid.tasks@.len(),
            j != mid.current->0,
            0 <= k < mid.cur().children@.len(),
            mid.cur().children@[k] == mid.tasks@[j].pid,
            u == (TaskControlBlock { children: u.children, ..mid.cur() }),
            u.children@ == mid.cur().children@.remove(k),
            new_k.tasks@ == mid.tasks@.update(mid.current->0 as int, u).remove(j),
            new_k.current == Some((if j < mid.current->0 { mid.current->0 - 1 } else { mid.current->0 as int }) as usize),
            new_k.next_pid == mid.next_pid,
            new_k.apps == mid.apps,
        ensures
            new_k.wf(),
    {
        let c = mid.current->0 as int;
        let m = mid.tasks@;
        let m2 = m.update(c, u);
        let b = new_k.tasks@;
        assert(m.len() == mid.tasks.len());
        assert forall|i: int| 0 <= i < m2.len() implies
            (#[trigger] m2[i]).pid == m[i].pid && m2[i].parent == m[i].parent && m2[i].status == m[i].status
            && m2[i].wf() && (i != c ==> m2[i] == m[i]) by {}
        assert forall|i: int| 0 <= i < b.len() implies #[trigger] b[i] == m2[if i < j { i } else { i + 1 }] by {}
        assert forall|i: int, i2: int|
            0 <= i < b.len() && 0 <= i2 < b.len() && i != i2
            implies #[trigger] b[i].pid != #[trigger] b[i2].pid by {
            let x = if i < j { i } else { i + 1 };
            let y = if i2 < j { i2 } else { i2 + 1 };
            assert(m[x].pid != m[y].pid);
        }
        assert forall|i: int|
            0 <= i < b.len() && (#[trigger] b[i]).status == TaskStatus::Running
            implies new_k.current == Some(i as usize) by {
            let x = if i < j { i } else { i + 1 };
            assert(m[x].status == TaskStatus::Running);
            assert(mid.current == Some(x as usize));
        }
        // The reaped record's parent is the running task.
        assert(has_child_record(m, m[c].pid, m[c].children@[k]));
        let jx = choose|jx: int| 0 <= jx < m.len() && (#[trigger] m[jx]).pid == m[c].children@[k] && m[jx].parent == Some(m[c].pid);
        assert(jx == j);
        assert(m[c].children@.no_duplicates());
        assert forall|i: int, kk: int| 0 <= i < b.len() && 0 <= kk < b[i].children@.len()
            implies has_child_record(b, b[i].pid, #[trigger] b[i].children@[kk]) by {
            let x = if i < j { i } else { i + 1 };
            let kx = if x == c && kk >= k { kk + 1 } else { kk };
            let ch = b[i].children@[kk];
            assert(ch == m[x].children@[kx]);
            assert(has_child_record(m, m[x].pid, m[x].children@[kx]));
            let jj = choose|jj: int| 0 <= jj < m.len() && (#[trigger] m[jj]).pid == ch && m[jj].parent == Some(m[x].pid);
            if jj == j {
                assert(m[x].pid == m[c].pid);
                assert(x == c);
                assert(kx != k);
                assert(m[c].children@[kx] == m[c].children@[k]);
            }
            let jn = if jj < j { jj } else { jj - 1 };
            assert(b[jn] == m2[jj]);
        }
        assert forall|i: int| 0 <= i < b.len() implies (#[trigger] b[i]).children@.no_duplicates() by {
            let x = if i < j { i } else { i + 1 };
            assert(m[x].children@.no_duplicates());
            if x == c {
                let s0 = m[c].children@;
                let s1 = s0.remove(k);
                assert forall|p: int, q: int| 0 <= p < s1.len() && 0 <= q < s1.len() && p != q
                    implies s1[p] != s1[q] by {
                    let p0 = if p < k { p } else { p + 1 };
                    let q0 = if q < k { q } else { q + 1 };
                    assert(s1[p] == s0[p0] && s1[q] == s0[q0]);
                }
            }
        }
    }

    /// Reaps an exited child of the running task. `pid == -1` waits for any child.
    /// Returns `-1` where no child matches `pid`, `-2` where children match but none
    /// has exited. Otherwise, for the first matching child in the child list that has
    /// exited, writes its exit code (four bytes, little endian) to `exit_code_ptr` in
    /// the caller's memory, drops its record and returns its process identifier; where
    /// that destination is not mapped, returns `-1` and reaps nothing.
    pub fn sys_waitpid(&mut self, pid: isize, exit_code_ptr: usize) -> (r: isize)
        requires
            old(self).wf(),
            old(self).current is Some,
        ensures
            final(self).wf(),
            final(self).next_pid == old(self).next_pid,
            final(self).next_stamp == old(self).next_stamp,
            final(self).apps == old(self).apps,
            ({
                let t = old(self).cur();
                let ch = t.children@;
                let c = old(self).current->0 as int;
                &&& (forall|k: int| 0 <= k < ch.len() ==> !pid_matches(pid, #[trigger] ch[k]))
                    ==> r == -1 && old(self).unchanged(final(self))
                &&& (exists|k: int| 0 <= k < ch.len() && pid_matches(pid, #[trigger] ch[k]))
                    && (forall|k: int| 0 <= k < ch.len() ==> !reapable(old(self).tasks@, pid, #[trigger] ch[k]))
                    ==> r == -2 && old(self).unchanged(final(self))
                &&& forall|k: int, j: int|
                    first_reapable(old(self).tasks@, ch, pid, k) && 0 <= j < old(self).tasks@.len()
                        && #[trigger] old(self).tasks@[j].pid == #[trigger] ch[k] ==> {
                        let code = le_bytes(old(self).tasks@[j].exit_code as u32 as nat, 4);
                        if exit_code_ptr + 4 <= usize::MAX && range_mapped(t.memory_set.view(), exit_code_ptr as int, 4) {
                            let u = final(self).cur();
                            &&& r == ch[k]
                            &&& final(self).tasks@ == old(self).tasks@.update(c, u).remove(j)
                            &&& final(self).current == Some((if j < c { c - 1 } else { c }) as usize)
                            &&& u == (TaskControlBlock { children: u.children, memory_set: u.memory_set, ..t })
                            &&& u.children@ == ch.remove(k)
                            &&& t.memory_set.same_heap(&u.memory_set)
                            &&& written(t.memory_set.view(), u.memory_set.view(), exit_code_ptr as int, code)
                        } else {
                            r == -1 && old(self).unchanged(final(self))
                        }
                    }
            }),
    {
        if !self.any_child_matches(pid) {
            return -1;
        }
        let (k, j) = match self.find_reapable(pid) {
            None => {
                return -2;
            },
            Some(found) => found,
        };
        let c = self.current.unwrap();
        assert(j != c);
        let code = self.tasks[j].exit_code;
        let mut bytes: Vec<u8> = Vec::new();
        push_le(&mut bytes, code as u32 as usize, 4);
        assert(bytes@ =~= le_bytes(code as u32 as nat, 4));
        let ghost zombie_pid = self.tasks@[j as int].pid;
        let ghost t = old(self).cur();
        proof {
            lemma_le_bytes_len(code as u32 as nat, 4);
            assert forall|k2: int, j2: int|
                first_reapable(old(self).tasks@, t.children@, pid, k2) && 0 <= j2 < old(self).tasks@.len()
                    && #[trigger] old(self).tasks@[j2].pid == #[trigger] t.children@[k2]
                implies k2 == k && j2 == j by {
                if k2 < k {
                    assert(!reapable(old(self).tasks@, pid, t.children@[k2]));
                }
                if k < k2 {
                    assert(!reapable(old(self).tasks@, pid, t.children@[k as int]));
                }
            }
        }
        if !self.tasks[c].memory_set.write_bytes(exit_code_ptr, &bytes) {
            assert(self.tasks@ =~= old(self).tasks@);
            return -1;
        }
        proof {
            Self::lemma_cur_update_wf(old(self), self);
        }
        let ghost mid = *self;
        let child_pid = self.tasks[c].children.remove(k);
        let ghost u = self.tasks@[c as int];
        assert(self.tasks@ =~= mid.tasks@.update(c as int, u));
        assert(self.tasks@ =~= old(self).tasks@.update(c as int, u));
        let _reaped = self.tasks.remove(j);
        if j < c {
            self.current = Some(c - 1);
        }
        proof {
            Self::lemma_reap_wf(&mid, self, j as int, k as int, u);
        }
        child_pid as isize
    }
}

/// Right after a fork, a wait for any child of the caller finds a matching child,
/// the new one; where none of the caller's earlier children had exited, none of its
/// children can be reaped yet, so the wait reports `-2`.
pub proof fn lemma_wait_after_fork(k0: &Kernel, k1: &Kernel, child: TaskControlBlock)
    requires
        k0.wf(),
        k0.current is Some,
        k0.adopted(k1, child),
        child.pid == k0.next_pid,
        child.status == TaskStatus::Ready,
        forall|i: int| 0 <= i < k0.cur().children@.len() ==> !reapable(k0.tasks@, -1isize, #[trigger] k0.cur().children@[i]),
    ensures
        exists|i: int| 0 <= i < k1.cur().children@.len() && pid_matches(-1isize, #[trigger] k1.cur().children@[i]),
        forall|i: int| 0 <= i < k1.cur().children@.len() ==> !reapable(k1.tasks@, -1isize, #[trigger] k1.cur().children@[i]),
{
    let c = k0.current->0 as int;
    let n = k0.tasks@.len();
    let ch1 = k1.cur().children@;
    assert(k1.tasks@[c] == k1.tasks@.drop_last()[c]);
    assert(ch1 == k0.cur().children@.push(child.pid));
    assert(pid_matches(-1isize, ch1[ch1.len() - 1]));
    assert forall|j: int| 0 <= j < n implies
        (#[trigger] k1.tasks@[j]).pid == k0.tasks@[j].pid && k1.tasks@[j].status == k0.tasks@[j].status by {
        assert(k1.tasks@[j] == k1.tasks@.drop_last()[j]);
    }
    assert forall|i: int| 0 <= i < ch1.len() implies !reapable(k1.tasks@, -1isize, #[trigger] ch1[i]) by {
        if is_zombie_pid(k1.tasks@, ch1[i]) {
            let j = choose|j: int| 0 <= j < k1.tasks@.len() && (#[trigger] k1.tasks@[j]).pid == ch1[i]
                && k1.tasks@[j].status == TaskStatus::Zombie;
            if j < n {
                if i < ch1.len() - 1 {
                    assert(k0.cur().children@[i] == ch1[i]);
                    assert(reapable(k0.tasks@, -1isize, k0.cur().children@[i]));
                } else {
                    assert(k0.tasks@[j].pid < k0.next_pid);
                }
            } else {
                assert(k1.tasks@[j] == child);
            }
        }
    }
}

/// A wait for a process identifier that is not `-1` and not in the caller's child
/// list (never a child, or already reaped) matches no child, so it returns `-1`.
pub proof fn lemma_wait_unknown_pid(k: &Kernel, pid: isize)
    requires
        k.current is Some,
        pid != -1,
        forall|i: int| 0 <= i < k.cur().children@.len() ==> #[trigger] k.cur().children@[i] != pid,
    ensures
        forall|i: int| 0 <= i < k.cur().children@.len() ==> !pid_matches(pid, #[trigger] k.cur().children@[i]),
{
}

/// Once a task's only child has exited, a wait for any child selects that child as
/// the first one to reap; the wait then returns its identifier and writes its exit code.
pub proof fn lemma_wait_after_exit(k: &Kernel, j: int)
    requires
        k.current is Some,
        k.cur().children@.len() == 1,
        0 <= j < k.tasks@.len(),
        k.tasks@[j].pid == k.cur().children@[0],
        k.tasks@[j].status == TaskStatus::Zombie,
    ensures
        first_reapable(k.tasks@, k.cur().children@, -1isize, 0),
{
    assert(is_zombie_pid(k.tasks@, k.cur().children@[0])) by {
        assert(k.tasks@[j].pid == k.cur().children@[0]);
    }
}

} // verus!
