//! Processes: the pid table, fork, exit, waitpid, signals, the file
//! descriptor table and the sleep timers.
use vstd::prelude::*;
use crate::sync::ProcessSync;
use crate::task::TaskControlBlock;
use crate::mm::MemorySet;
use crate::trap::{TrapContext, TRAP_REGS};

verus! {

/// Pid of the process that adopts the children of exiting processes.
pub const INITPROC_PID: usize = 0;

pub const SIGINT: u32 = 0x4;
pub const SIGILL: u32 = 0x10;
pub const SIGABRT: u32 = 0x40;
pub const SIGFPE: u32 = 0x100;
pub const SIGSEGV: u32 = 0x800;

/// Every signal bit the kernel knows.
pub const SIGNAL_MASK: u32 = 0xA54;

/// A set of pending signals, one bit per signal.
#[derive(PartialEq, Eq, Structural, Debug, Clone, Copy)]
pub struct SignalFlags {
    pub bits: u32,
}

impl SignalFlags {
    /// The empty set.
    pub fn empty() -> (s: Self)
        ensures
            s.bits == 0,
    {
        SignalFlags { bits: 0 }
    }

    /// The set with exactly these bits, if every one of them is a known signal.
    pub fn from_bits(bits: u32) -> (s: Option<Self>)
        ensures
            s == if bits & !SIGNAL_MASK == 0 {
                Some(SignalFlags { bits })
            } else {
                None::<SignalFlags>
            },
    {
        if bits & !SIGNAL_MASK == 0 {
            Some(SignalFlags { bits })
        } else {
            None
        }
    }

    /// Whether every bit of `other` is set.
    pub fn contains(&self, other: u32) -> (r: bool)
        ensures
            r == (self.bits & other == other),
    {
        self.bits & other == other
    }
}

/// Exit code of a process killed by the signals `bits`, checked in the
/// order SIGINT, SIGILL, SIGABRT, SIGFPE, SIGSEGV; none if none is pending.
pub open spec fn signal_exit_code(bits: u32) -> Option<i32> {
    if bits & SIGINT == SIGINT {
        Some(-2i32)
    } else if bits & SIGILL == SIGILL {
        Some(-4i32)
    } else if bits & SIGABRT == SIGABRT {
        Some(-6i32)
    } else if bits & SIGFPE == SIGFPE {
        Some(-8i32)
    } else if bits & SIGSEGV == SIGSEGV {
        Some(-11i32)
    } else {
        None
    }
}

/// The exit code that the pending signals impose, if any.
pub fn check_signals(signals: SignalFlags) -> (r: Option<i32>)
    ensures
        r == signal_exit_code(signals.bits),
{
    if signals.contains(SIGINT) {
        Some(-2)
    } else if signals.contains(SIGILL) {
        Some(-4)
    } else if signals.contains(SIGABRT) {
        Some(-6)
    } else if signals.contains(SIGFPE) {
        Some(-8)
    } else if signals.contains(SIGSEGV) {
        Some(-11)
    } else {
        None
    }
}

/// An entry of a descriptor table: an open file, shared by the
/// descriptors that `dup` made of it.
#[derive(PartialEq, Eq, Structural, Debug, Clone, Copy)]
pub struct FileHandle {
    /// Which open file the descriptor refers to.
    pub file: usize,
    pub readable: bool,
    pub writable: bool,
}

/// A process.
pub struct ProcessControlBlock {
    pub pid: usize,
    pub children: Vec<usize>,
    pub is_zombie: bool,
    pub exit_code: i32,
    pub signals: SignalFlags,
    pub fd_table: Vec<Option<FileHandle>>,
    /// Threads that have not exited.
    pub live_threads: usize,
    pub sync: ProcessSync,
    /// The user address space.
    pub memory_set: MemorySet,
    /// Registers saved at the last trap of the thread making system calls.
    pub trap_cx: TrapContext,
}

/// A process is not its own child, the init process is nobody's child,
/// and the saved trap context holds every register.
pub open spec fn pcb_ok(p: ProcessControlBlock) -> bool {
    &&& !p.children@.contains(p.pid)
    &&& !p.children@.contains(INITPROC_PID)
    &&& p.trap_cx.x@.len() == TRAP_REGS
}

/// The table from pids to processes.
pub struct ProcessTable {
    pub procs: Vec<ProcessControlBlock>,
    /// The pid the next fork hands out.
    pub next_pid: usize,
}

impl ProcessTable {
    pub open spec fn has(&self, pid: usize) -> bool {
        exists|i: int| 0 <= i < self.procs@.len() && #[trigger] self.procs@[i].pid == pid
    }

    pub open spec fn index_of(&self, pid: usize) -> int {
        choose|i: int| 0 <= i < self.procs@.len() && #[trigger] self.procs@[i].pid == pid
    }

    /// The processes by pid.
    pub open spec fn view(&self) -> Map<usize, ProcessControlBlock> {
        Map::new(|pid: usize| self.has(pid), |pid: usize| self.procs@[self.index_of(pid)])
    }

    pub open spec fn wf(&self) -> bool {
        &&& forall|i: int, j: int|
            0 <= i < self.procs@.len() && 0 <= j < self.procs@.len() && i != j ==> #[trigger] self.procs@[i].pid
                != #[trigger] self.procs@[j].pid
        &&& forall|i: int| 0 <= i < self.procs@.len() ==> #[trigger] self.procs@[i].pid < self.next_pid
        &&& 1 <= self.next_pid <= isize::MAX
        &&& forall|i: int| 0 <= i < self.procs@.len() ==> pcb_ok(#[trigger] self.procs@[i])
    }

    /// A table holding only the init process.
    pub fn new() -> (t: Self)
        ensures
            t.wf(),
            t@.dom() == set![INITPROC_PID],
            t@[INITPROC_PID].children@ == Seq::<usize>::empty(),
    {
        let init = ProcessControlBlock {
            pid: INITPROC_PID,
            children: Vec::new(),
            is_zombie: false,
            exit_code: 0,
            signals: SignalFlags::empty(),
            fd_table: Vec::new(),
            live_threads: 1,
            sync: ProcessSync::new(),
            memory_set: MemorySet::new_bare(),
            trap_cx: TrapContext::zero(),
        };
        let mut procs = Vec::new();
        procs.push(init);
        let t = ProcessTable { procs, next_pid: 1 };
        proof {
            assert(t.procs@[0].pid == INITPROC_PID);
            assert(t@.dom() =~= set![INITPROC_PID]);
            assert(t.index_of(INITPROC_PID) == 0);
        }
        t
    }

    /// Position of `pid` in the table.
    fn find(&self, pid: usize) -> (r: Option<usize>)
        requires
            self.wf(),
        ensures
            r is None <==> !self.has(pid),
            r matches Some(i) ==> i < self.procs@.len() && self.procs@[i as int].pid == pid && self.index_of(pid) == i,
    {
        let mut i: usize = 0;
        while i < self.procs.len()
            invariant
                i <= self.procs@.len(),
                self.wf(),
                forall|j: int| 0 <= j < i ==> #[trigger] self.procs@[j].pid != pid,
            decreases self.procs@.len() - i,
        {
            if self.procs[i].pid == pid {
                proof {
                    assert(self.procs@[i as int].pid == pid);
                    assert(self.has(pid));
                    let k = self.index_of(pid);
                    assert(self.procs@[k].pid == pid);
                    if k != i {
                        assert(self.procs@[k].pid != self.procs@[i as int].pid);
                    }
                }
                return Some(i);
            }
            i += 1;
        }
        None
    }
}

/// Looks up the process with pid `pid`.
pub fn pid2process(table: &ProcessTable, pid: usize) -> (r: Option<&ProcessControlBlock>)
    requires
        table.wf(),
    ensures
        r is None <==> !table@.contains_key(pid),
        r matches Some(p) ==> *p == table@[pid],
{
    match table.find(pid) {
        Some(i) => Some(&table.procs[i]),
        None => None,
    }
}

proof fn lemma_view_after_set(t1: ProcessTable, t2: ProcessTable, i: int, p: ProcessControlBlock)
    requires
        t1.wf(),
        0 <= i < t1.procs@.len(),
        p.pid == t1.procs@[i].pid,
        pcb_ok(p),
        t2.procs@ == t1.procs@.update(i, p),
        t2.next_pid == t1.next_pid,
    ensures
        t2.wf(),
        t2@ == t1@.insert(p.pid, p),
{
    assert forall|x: int| 0 <= x < t2.procs@.len() implies pcb_ok(#[trigger] t2.procs@[x]) by {
        if x != i {
            assert(pcb_ok(t1.procs@[x]));
        }
    }
    assert forall|x: int, y: int|
        0 <= x < t2.procs@.len() && 0 <= y < t2.procs@.len() && x != y implies #[trigger] t2.procs@[x].pid
        != #[trigger] t2.procs@[y].pid by {
        assert(t1.procs@[x].pid != t1.procs@[y].pid);
    }
    assert forall|x: int| 0 <= x < t2.procs@.len() implies #[trigger] t2.procs@[x].pid < t2.next_pid by {
        assert(t1.procs@[x].pid < t1.next_pid);
    }
    assert forall|pid: usize| t2.has(pid) == t1.insert_key(p.pid, pid) by {
        if t1.has(pid) {
            let k = t1.index_of(pid);
            assert(t2.procs@[k].pid == pid);
        }
        if t2.has(pid) {
            let k = t2.index_of(pid);
            assert(t1.procs@[k].pid == pid);
        }
        if pid == p.pid {
            assert(t2.procs@[i].pid == pid);
        }
    }
    assert forall|pid: usize| #[trigger] t2.has(pid) implies t2@[pid] == t1@.insert(p.pid, p)[pid] by {
        let k = t2.index_of(pid);
        if pid == p.pid {
            assert(k == i);
        } else {
            assert(t1.procs@[k].pid == pid);
            assert(t1.index_of(pid) == k);
        }
    }
    assert(t2@ =~= t1@.insert(p.pid, p));
}

impl ProcessTable {
    /// Whether `pid` is a key, or is `extra`.
    pub open spec fn insert_key(&self, extra: usize, pid: usize) -> bool {
        self.has(pid) || pid == extra
    }
}

/// Records `process` under its pid, replacing any process recorded there.
pub fn insert_into_pid2process(table: &mut ProcessTable, process: ProcessControlBlock)
    requires
        old(table).wf(),
        process.pid < old(table).next_pid,
        pcb_ok(process),
    ensures
        final(table).wf(),
        final(table).next_pid == old(table).next_pid,
        final(table)@ == old(table)@.insert(process.pid, process),
{
    let pid = process.pid;
    match table.find(pid) {
        Some(i) => {
            let ghost pre = *table;
            table.procs.set(i, process);
            proof {
                lemma_view_after_set(pre, *table, i as int, process);
            }
        },
        None => {
            let ghost pre = *table;
            table.procs.push(process);
            proof {
                let n = pre.procs@.len() as int;
                assert forall|x: int, y: int|
                    0 <= x < table.procs@.len() && 0 <= y < table.procs@.len() && x != y implies #[trigger] table.procs@[x].pid
                    != #[trigger] table.procs@[y].pid by {
                    if x == n {
                        assert(pre.procs@[y].pid != pid);
                    } else if y == n {
                        assert(pre.procs@[x].pid != pid);
                    } else {
                        assert(pre.procs@[x].pid != pre.procs@[y].pid);
                    }
                }
                assert forall|x: int| 0 <= x < table.procs@.len() implies #[trigger] table.procs@[x].pid < table.next_pid by {
                    if x < n {
                        assert(pre.procs@[x].pid < pre.next_pid);
                    }
                }
                assert forall|q: usize| table.has(q) == pre.insert_key(pid, q) by {
                    if pre.has(q) {
                        let k = pre.index_of(q);
                        assert(table.procs@[k].pid == q);
                    }
                    if table.has(q) {
                        let k = table.index_of(q);
                        if k < n {
                            assert(pre.procs@[k].pid == q);
                        }
                    }
                    if q == pid {
                        assert(table.procs@[n].pid == q);
                    }
                }
                assert forall|q: usize| #[trigger] table.has(q) implies table@[q] == pre@.insert(pid, process)[q] by {
                    let k = table.index_of(q);
                    if q == pid {
                        assert(k == n);
                    } else {
                        assert(k < n);
                        assert(pre.procs@[k].pid == q);
                        assert(pre.index_of(q) == k);
                    }
                }
                assert(table@ =~= pre@.insert(pid, process));
            }
        },
    }
}

/// Forgets the process with pid `pid`, which must be recorded.
pub fn remove_from_pid2process(table: &mut ProcessTable, pid: usize)
    requires
        old(table).wf(),
        old(table)@.contains_key(pid),
    ensures
        final(table).wf(),
        final(table).next_pid == old(table).next_pid,
        final(table)@ == old(table)@.remove(pid),
{
    let ghost pre = *table;
    let i = match table.find(pid) {
        Some(i) => i,
        None => {
            return;
        },
    };
    table.procs.remove(i);
    proof {
        let n = pre.procs@.len() as int;
        assert forall|x: int, y: int|
            0 <= x < table.procs@.len() && 0 <= y < table.procs@.len() && x != y implies #[trigger] table.procs@[x].pid
            != #[trigger] table.procs@[y].pid by {
            let px = if x < i { x } else { x + 1 };
            let py = if y < i { y } else { y + 1 };
            assert(pre.procs@[px].pid != pre.procs@[py].pid);
        }
        assert forall|x: int| 0 <= x < table.procs@.len() implies #[trigger] table.procs@[x].pid < table.next_pid by {
            let px = if x < i { x } else { x + 1 };
            assert(pre.procs@[px].pid < pre.next_pid);
        }
        assert forall|x: int| 0 <= x < table.procs@.len() implies pcb_ok(#[trigger] table.procs@[x]) by {
            let px = if x < i { x } else { x + 1 };
            assert(pcb_ok(pre.procs@[px]));
        }
        assert forall|q: usize| table.has(q) == (pre.has(q) && q != pid) by {
            if pre.has(q) && q != pid {
                let k = pre.index_of(q);
                assert(k != i);
                let kk = if k < i { k } else { k - 1 };
                assert(table.procs@[kk].pid == q);
            }
            if table.has(q) {
                let k = table.index_of(q);
                let pk = if k < i { k } else { k + 1 };
                assert(pre.procs@[pk].pid == q);
                assert(pk != i);
            }
        }
        assert forall|q: usize| #[trigger] table.has(q) implies table@[q] == pre@.remove(pid)[q] by {
            let k = table.index_of(q);
            let pk = if k < i { k } else { k + 1 };
            assert(pre.procs@[pk].pid == q);
            assert(pre.index_of(q) == pk);
        }
        assert(table@ =~= pre@.remove(pid));
    }
}

/// The child at `j` is one that `waitpid(pid)` waits for.
pub open spec fn wait_matches(children: Seq<usize>, j: int, pid: isize) -> bool {
    pid == -1 || pid as int == children[j] as int
}

/// The child at `j` has exited.
pub open spec fn child_exited(t: Map<usize, ProcessControlBlock>, children: Seq<usize>, j: int) -> bool {
    t.contains_key(children[j]) && t[children[j]].is_zombie
}

/// `j` is the first child that matches `pid` and has exited.
pub open spec fn first_reapable(t: Map<usize, ProcessControlBlock>, children: Seq<usize>, pid: isize, j: int) -> bool {
    &&& 0 <= j < children.len()
    &&& wait_matches(children, j, pid) && child_exited(t, children, j)
    &&& forall|k: int| 0 <= k < j ==> !(wait_matches(children, k, pid) && #[trigger] child_exited(t, children, k))
}

/// Reaps a child of process `cur`: `pid` is a child's pid, or -1 for any
/// child.  Returns -1 when no child matches, -2 when none of the matching
/// children has exited, and otherwise the pid of the first matching child
/// that has exited, with its exit code; that child is then forgotten.
pub fn sys_waitpid(table: &mut ProcessTable, cur: usize, pid: isize) -> (r: (isize, i32))
    requires
        old(table).wf(),
        old(table)@.contains_key(cur),
    ensures
        final(table).wf(),
        final(table).next_pid == old(table).next_pid,
        ({
            let t = old(table)@;
            let cs = t[cur].children@;
            if !(exists|j: int| 0 <= j < cs.len() && #[trigger] wait_matches(cs, j, pid)) {
                r.0 == -1 && final(table)@ == t
            } else if !(exists|j: int| 0 <= j < cs.len() && wait_matches(cs, j, pid) && #[trigger] child_exited(t, cs, j)) {
                r.0 == -2 && final(table)@ == t
            } else {
                exists|j: int|
                    #[trigger] first_reapable(t, cs, pid, j) && r.0 == cs[j] && r.1 == t[cs[j]].exit_code
                        && final(table)@[cur].children@ == cs.remove(j) && final(table)@ == t.insert(
                        cur,
                        final(table)@[cur],
                    ).remove(cs[j])
            }
        }),
{
    let ghost t = old(table)@;
    let ci = match table.find(cur) {
        Some(i) => i,
        None => {
            return (-1, 0);
        },
    };
    let ghost cs = t[cur].children@;
    proof {
        assert(table.procs@[ci as int] == t[cur]);
        assert(t == old(table)@);
    }
    let n = table.procs[ci].children.len();
    let mut any = false;
    let mut j: usize = 0;
    while j < n
        invariant
            table@ == t,
            table.wf(),
            table.next_pid == old(table).next_pid,
            t == old(table)@,
            t.contains_key(cur),
            ci < table.procs@.len(),
            table.procs@[ci as int] == t[cur],
            cs == t[cur].children@,
            !cs.contains(cur),
            n == cs.len(),
            j <= n,
            any == exists|k: int| 0 <= k < j && #[trigger] wait_matches(cs, k, pid),
            forall|k: int| 0 <= k < j ==> !(wait_matches(cs, k, pid) && #[trigger] child_exited(t, cs, k)),
        decreases n - j,
    {
        let c = table.procs[ci].children[j];
        if pid == -1 || pid as i128 == c as i128 {
            any = true;
            proof {
                assert(wait_matches(cs, j as int, pid));
            }
            match table.find(c) {
                Some(k) => {
                    if table.procs[k].is_zombie {
                        let code = table.procs[k].exit_code;
                        proof {
                            assert(t.contains_key(c));
                            assert(child_exited(t, cs, j as int));
                            assert(table.procs@[k as int].pid == c);
                            assert(cs[j as int] == c);
                            if c == cur {
                                assert(cs.contains(cur));
                            }
                            assert(first_reapable(t, cs, pid, j as int));
                        }
                        let ghost before = *table;
                        let mut kids = Vec::new();
                        std::mem::swap(&mut kids, &mut table.procs[ci].children);
                        kids.remove(j);
                        std::mem::swap(&mut kids, &mut table.procs[ci].children);
                        proof {
                            assert(table.procs@ =~= before.procs@.update(ci as int, table.procs@[ci as int]));
                            lemma_view_after_set(before, *table, ci as int, table.procs@[ci as int]);
                            assert(table@.contains_key(c));
                        }
                        let ghost mid = *table;
                        remove_from_pid2process(table, c);
                        proof {
                            assert(mid@[cur] == mid.procs@[ci as int]);
                            assert(table@[cur] == mid@[cur]);
                            assert(table@[cur].children@ == cs.remove(j as int));
                            assert(code == t[c].exit_code);
                            assert(before.procs@[k as int].pid < before.next_pid);
                            assert(c <= isize::MAX);
                            assert(0 <= j < cs.len() && wait_matches(cs, j as int, pid));
                            assert(0 <= j < cs.len() && wait_matches(cs, j as int, pid) && child_exited(t, cs, j as int));
                            assert(table@ =~= t.insert(cur, table@[cur]).remove(c));
                        }
                        return (c as isize, code);
                    }
                },
                None => {},
            }
        }
        j += 1;
    }
    if any {
        (-2, 0)
    } else {
        (-1, 0)
    }
}

/// Two processes agree on everything but their children, zombie state,
/// exit code, live thread count and signals.
pub open spec fn same_resources(a: ProcessControlBlock, b: ProcessControlBlock) -> bool {
    a.pid == b.pid && a.fd_table@ == b.fd_table@ && a.sync == b.sync && a.memory_set.areas@ == b.memory_set.areas@
        && a.trap_cx == b.trap_cx
}

fn copy_fd_table(fds: &Vec<Option<FileHandle>>) -> (r: Vec<Option<FileHandle>>)
    ensures
        r@ == fds@,
{
    let mut out: Vec<Option<FileHandle>> = Vec::new();
    let mut i: usize = 0;
    while i < fds.len()
        invariant
            i <= fds@.len(),
            out@ == fds@.subrange(0, i as int),
        decreases fds@.len() - i,
    {
        out.push(fds[i]);
        i += 1;
        proof {
            assert(out@ =~= fds@.subrange(0, i as int));
        }
    }
    proof {
        assert(out@ =~= fds@);
    }
    out
}

/// Forks process `parent`: the child gets the next pid, a copy of the
/// parent's descriptor table, one thread, no children and no pending
/// signal.  Returns the child's pid.
pub fn sys_fork(table: &mut ProcessTable, parent: usize) -> (r: isize)
    requires
        old(table).wf(),
        old(table)@.contains_key(parent),
        old(table).next_pid < isize::MAX,
    ensures
        final(table).wf(),
        r == old(table).next_pid,
        final(table).next_pid == old(table).next_pid + 1,
        ({
            let t = old(table)@;
            let c = old(table).next_pid;
            let f = final(table)@;
            &&& f.dom() == t.dom().insert(c)
            &&& f[c].pid == c
            &&& f[c].children@ == Seq::<usize>::empty()
            &&& f[c].signals.bits == 0
            &&& f[c].fd_table@ == t[parent].fd_table@
            &&& f[c].memory_set.areas@ == t[parent].memory_set.areas@
            &&& f[c].trap_cx.x@ == t[parent].trap_cx.x@.update(10, 0)
            &&& f[c].trap_cx.sepc == t[parent].trap_cx.sepc
            &&& f[c].trap_cx.sstatus == t[parent].trap_cx.sstatus
            &&& !f[c].is_zombie
            &&& f[c].live_threads == 1
            &&& f[c].sync.wf() && f[c].sync.threads() == 1
            &&& f[c].sync.mutexes.resources() == 0 && f[c].sync.semaphores.resources() == 0
            &&& f[c].sync.condvars@.len() == 0 && !f[c].sync.detect_deadlock
            &&& f[parent].children@ == t[parent].children@.push(c)
            &&& f[parent].signals == t[parent].signals
            &&& f[parent].is_zombie == t[parent].is_zombie
            &&& f[parent].live_threads == t[parent].live_threads
            &&& same_resources(f[parent], t[parent])
            &&& forall|q: usize| #[trigger] t.contains_key(q) && q != parent ==> f[q] == t[q]
        }),
{
    let ghost t = old(table)@;
    let i = match table.find(parent) {
        Some(i) => i,
        None => {
            return -1;
        },
    };
    let child_pid = table.next_pid;
    let ghost before = *table;
    let mut kids = Vec::new();
    std::mem::swap(&mut kids, &mut table.procs[i].children);
    kids.push(child_pid);
    std::mem::swap(&mut kids, &mut table.procs[i].children);
    proof {
        assert(table.procs@ =~= before.procs@.update(i as int, table.procs@[i as int]));
        lemma_view_after_set(before, *table, i as int, table.procs@[i as int]);
    }
    let ghost mid = *table;
    table.next_pid = child_pid + 1;
    proof {
        assert forall|x: int| 0 <= x < table.procs@.len() implies #[trigger] table.procs@[x].pid < table.next_pid by {
            assert(mid.procs@[x].pid < mid.next_pid);
        }
        assert forall|x: int, y: int|
            0 <= x < table.procs@.len() && 0 <= y < table.procs@.len() && x != y implies #[trigger] table.procs@[x].pid
            != #[trigger] table.procs@[y].pid by {
            assert(mid.procs@[x].pid != mid.procs@[y].pid);
        }
        assert(table@ =~= mid@);
    }
    let fds = copy_fd_table(&table.procs[i].fd_table);
    let memory_set = table.procs[i].memory_set.deep_copy();
    proof {
        assert(pcb_ok(table.procs@[i as int]));
    }
    let trap_cx = table.procs[i].trap_cx.for_child();
    let mut sync = crate::sync::ProcessSync::new();
    sync.add_thread();
    let child = ProcessControlBlock {
        pid: child_pid,
        children: Vec::new(),
        is_zombie: false,
        exit_code: 0,
        signals: SignalFlags::empty(),
        fd_table: fds,
        live_threads: 1,
        sync,
        memory_set,
        trap_cx,
    };
    proof {
        assert(!mid@.contains_key(child_pid)) by {
            if mid.has(child_pid) {
                let k = mid.index_of(child_pid);
                assert(mid.procs@[k].pid < mid.next_pid);
            }
        }
    }
    insert_into_pid2process(table, child);
    proof {
        assert(table@.dom() =~= t.dom().insert(child_pid));
    }
    child_pid as isize
}

/// The calling thread of process `pid` exits.  When it was the last live
/// thread, the process becomes a zombie with `exit_code` and the init
/// process adopts its children.
pub fn sys_exit(table: &mut ProcessTable, pid: usize, exit_code: i32)
    requires
        old(table).wf(),
        old(table)@.contains_key(pid),
        old(table)@.contains_key(INITPROC_PID),
        pid != INITPROC_PID,
        old(table)@[pid].live_threads > 0,
    ensures
        final(table).wf(),
        final(table).next_pid == old(table).next_pid,
        ({
            let t = old(table)@;
            let f = final(table)@;
            &&& f.dom() == t.dom()
            &&& forall|q: usize| #[trigger] t.contains_key(q) && q != pid && q != INITPROC_PID ==> f[q] == t[q]
            &&& same_resources(f[pid], t[pid])
            &&& f[pid].signals == t[pid].signals
            &&& f[pid].live_threads == t[pid].live_threads - 1
            &&& if t[pid].live_threads > 1 {
                &&& f[pid].children@ == t[pid].children@
                &&& f[pid].is_zombie == t[pid].is_zombie
                &&& f[pid].exit_code == t[pid].exit_code
                &&& f[INITPROC_PID] == t[INITPROC_PID]
            } else {
                &&& f[pid].is_zombie
                &&& f[pid].exit_code == exit_code
                &&& f[pid].children@ == Seq::<usize>::empty()
                &&& f[INITPROC_PID].children@ == t[INITPROC_PID].children@ + t[pid].children@
                &&& same_resources(f[INITPROC_PID], t[INITPROC_PID])
                &&& f[INITPROC_PID].signals == t[INITPROC_PID].signals
                &&& f[INITPROC_PID].is_zombie == t[INITPROC_PID].is_zombie
                &&& f[INITPROC_PID].exit_code == t[INITPROC_PID].exit_code
                &&& f[INITPROC_PID].live_threads == t[INITPROC_PID].live_threads
            }
        }),
{
    let ghost t = old(table)@;
    let i = match table.find(pid) {
        Some(i) => i,
        None => {
            return;
        },
    };
    let ghost before = *table;
    let live = table.procs[i].live_threads;
    table.procs[i].live_threads = live - 1;
    if live > 1 {
        proof {
            assert(table.procs@ =~= before.procs@.update(i as int, table.procs@[i as int]));
            lemma_view_after_set(before, *table, i as int, table.procs@[i as int]);
        }
        return;
    }
    table.procs[i].is_zombie = true;
    table.procs[i].exit_code = exit_code;
    let mut kids = Vec::new();
    std::mem::swap(&mut kids, &mut table.procs[i].children);
    proof {
        assert(table.procs@ =~= before.procs@.update(i as int, table.procs@[i as int]));
        lemma_view_after_set(before, *table, i as int, table.procs@[i as int]);
    }
    let ghost mid = *table;
    let k = match table.find(INITPROC_PID) {
        Some(k) => k,
        None => {
            return;
        },
    };
    let mut adopted = Vec::new();
    std::mem::swap(&mut adopted, &mut table.procs[k].children);
    let mut j: usize = 0;
    let ghost start = adopted@;
    while j < kids.len()
        invariant
            j <= kids@.len(),
            adopted@ == start + kids@.subrange(0, j as int),
        decreases kids@.len() - j,
    {
        adopted.push(kids[j]);
        j += 1;
        proof {
            assert(adopted@ =~= start + kids@.subrange(0, j as int));
        }
    }
    std::mem::swap(&mut adopted, &mut table.procs[k].children);
    proof {
        assert(kids@.subrange(0, kids@.len() as int) =~= kids@);
        assert(table.procs@ =~= mid.procs@.update(k as int, table.procs@[k as int]));
        lemma_view_after_set(mid, *table, k as int, table.procs@[k as int]);
    }
}

/// Sends the signals `signal` to process `pid`.  Fails (-1) when there
/// is no such process or a bit is not a known signal.
pub fn sys_kill(table: &mut ProcessTable, pid: usize, signal: u32) -> (r: isize)
    requires
        old(table).wf(),
    ensures
        final(table).wf(),
        final(table).next_pid == old(table).next_pid,
        (!old(table)@.contains_key(pid) || signal & !SIGNAL_MASK != 0) ==> r == -1 && final(table)@ == old(table)@,
        (old(table)@.contains_key(pid) && signal & !SIGNAL_MASK == 0) ==> {
            let t = old(table)@;
            let f = final(table)@;
            &&& r == 0
            &&& f.dom() == t.dom()
            &&& forall|q: usize| #[trigger] t.contains_key(q) && q != pid ==> f[q] == t[q]
            &&& f[pid].signals.bits == t[pid].signals.bits | signal
            &&& same_resources(f[pid], t[pid])
            &&& f[pid].children == t[pid].children
            &&& f[pid].is_zombie == t[pid].is_zombie
            &&& f[pid].exit_code == t[pid].exit_code
            &&& f[pid].live_threads == t[pid].live_threads
        },
{
    let i = match table.find(pid) {
        Some(i) => i,
        None => {
            return -1;
        },
    };
    match SignalFlags::from_bits(signal) {
        Some(flag) => {
            let ghost before = *table;
            let bits = table.procs[i].signals.bits | flag.bits;
            table.procs[i].signals = SignalFlags { bits };
            proof {
                assert(table.procs@ =~= before.procs@.update(i as int, table.procs@[i as int]));
                lemma_view_after_set(before, *table, i as int, table.procs@[i as int]);
            }
            0
        },
        None => -1,
    }
}

impl ProcessControlBlock {
    /// Lowest free descriptor, growing the table by one slot when all are taken.
    pub fn alloc_fd(&mut self) -> (fd: usize)
        ensures
            fd < final(self).fd_table@.len(),
            final(self).fd_table@[fd as int] is None,
            forall|k: int| 0 <= k < fd ==> (#[trigger] old(self).fd_table@[k]) is Some,
            fd < old(self).fd_table@.len() ==> final(self).fd_table@ == old(self).fd_table@,
            fd == old(self).fd_table@.len() ==> final(self).fd_table@ == old(self).fd_table@.push(None),
            fd <= old(self).fd_table@.len(),
            final(self).pid == old(self).pid,
            final(self).children == old(self).children,
            final(self).sync == old(self).sync,
            final(self).signals == old(self).signals,
    {
        let mut i: usize = 0;
        while i < self.fd_table.len()
            invariant
                i <= self.fd_table@.len(),
                self.fd_table@ == old(self).fd_table@,
                forall|k: int| 0 <= k < i ==> (#[trigger] self.fd_table@[k]) is Some,
            decreases self.fd_table@.len() - i,
        {
            if self.fd_table[i].is_none() {
                return i;
            }
            i += 1;
        }
        self.fd_table.push(None);
        i
    }
}

/// Installs the file that `open` found, on the lowest free descriptor;
/// -1 when nothing was found.
pub fn sys_open(p: &mut ProcessControlBlock, file: Option<FileHandle>) -> (fd: isize)
    requires
        old(p).fd_table@.len() < isize::MAX,
    ensures
        file is None ==> fd == -1 && final(p).fd_table@ == old(p).fd_table@,
        file matches Some(h) ==> {
            &&& 0 <= fd <= old(p).fd_table@.len()
            &&& final(p).fd_table@[fd as int] == Some(h)
            &&& forall|k: int| 0 <= k < fd ==> (#[trigger] old(p).fd_table@[k]) is Some
            &&& fd < old(p).fd_table@.len() ==> old(p).fd_table@[fd as int] is None && final(p).fd_table@ == old(p).fd_table@.update(fd as int, Some(h))
            &&& fd == old(p).fd_table@.len() ==> final(p).fd_table@ == old(p).fd_table@.push(Some(h))
        },
{
    match file {
        None => -1,
        Some(h) => {
            let fd = p.alloc_fd();
            p.fd_table.set(fd, Some(h));
            proof {
                if fd == old(p).fd_table@.len() {
                    assert(p.fd_table@ =~= old(p).fd_table@.push(Some(h)));
                }
            }
            fd as isize
        },
    }
}

/// Closes descriptor `fd`; -1 when it is not open.
pub fn sys_close(p: &mut ProcessControlBlock, fd: usize) -> (r: isize)
    ensures
        (fd >= old(p).fd_table@.len() || old(p).fd_table@[fd as int] is None) ==> r == -1 && final(p).fd_table@ == old(p).fd_table@,
        (fd < old(p).fd_table@.len() && old(p).fd_table@[fd as int] is Some) ==> r == 0 && final(p).fd_table@ == old(p).fd_table@.update(fd as int, None),
{
    if fd >= p.fd_table.len() {
        return -1;
    }
    if p.fd_table[fd].is_none() {
        return -1;
    }
    p.fd_table.set(fd, None);
    0
}

/// Makes a second descriptor for the file open on `fd`, the lowest free
/// one; -1 when `fd` is not open.
pub fn sys_dup(p: &mut ProcessControlBlock, fd: usize) -> (r: isize)
    requires
        old(p).fd_table@.len() < isize::MAX,
    ensures
        (fd >= old(p).fd_table@.len() || old(p).fd_table@[fd as int] is None) ==> r == -1 && final(p).fd_table@ == old(p).fd_table@,
        (fd < old(p).fd_table@.len() && old(p).fd_table@[fd as int] is Some) ==> {
            &&& 0 <= r <= old(p).fd_table@.len()
            &&& final(p).fd_table@[r as int] == old(p).fd_table@[fd as int]
            &&& forall|k: int| 0 <= k < r ==> (#[trigger] old(p).fd_table@[k]) is Some
            &&& r != fd
            &&& r < old(p).fd_table@.len() ==> old(p).fd_table@[r as int] is None
            &&& r < old(p).fd_table@.len() ==> final(p).fd_table@ == old(p).fd_table@.update(r as int, old(p).fd_table@[fd as int])
            &&& r == old(p).fd_table@.len() ==> final(p).fd_table@ == old(p).fd_table@.push(old(p).fd_table@[fd as int])
        },
{
    if fd >= p.fd_table.len() {
        return -1;
    }
    let h = p.fd_table[fd];
    if h.is_none() {
        return -1;
    }
    let nfd = p.alloc_fd();
    p.fd_table.set(nfd, h);
    proof {
        if nfd == old(p).fd_table@.len() {
            assert(p.fd_table@ =~= old(p).fd_table@.push(h));
        }
    }
    nfd as isize
}

/// The open file that a read from `fd` goes to: none (the call returns
/// -1) when `fd` is not open or not readable.
pub fn sys_read(p: &ProcessControlBlock, fd: usize) -> (r: Option<FileHandle>)
    ensures
        r == if fd < p.fd_table@.len() && p.fd_table@[fd as int] is Some && p.fd_table@[fd as int].unwrap().readable {
            p.fd_table@[fd as int]
        } else {
            None::<FileHandle>
        },
{
    if fd >= p.fd_table.len() {
        return None;
    }
    match p.fd_table[fd] {
        Some(h) => if h.readable {
            Some(h)
        } else {
            None
        },
        None => None,
    }
}

/// The open file that a write to `fd` goes to: none (the call returns
/// -1) when `fd` is not open or not writable.
pub fn sys_write(p: &ProcessControlBlock, fd: usize) -> (r: Option<FileHandle>)
    ensures
        r == if fd < p.fd_table@.len() && p.fd_table@[fd as int] is Some && p.fd_table@[fd as int].unwrap().writable {
            p.fd_table@[fd as int]
        } else {
            None::<FileHandle>
        },
{
    if fd >= p.fd_table.len() {
        return None;
    }
    match p.fd_table[fd] {
        Some(h) => if h.writable {
            Some(h)
        } else {
            None
        },
        None => None,
    }
}

/// Installs the two ends of a new pipe on the two lowest free
/// descriptors, the read end first; returns 0 and the two descriptors.
pub fn sys_pipe(p: &mut ProcessControlBlock, read_end: FileHandle, write_end: FileHandle) -> (r: (isize, usize, usize))
    ensures
        r.0 == 0,
        r.1 < r.2,
        final(p).fd_table@.len() <= old(p).fd_table@.len() + 2,
        final(p).fd_table@[r.1 as int] == Some(read_end),
        final(p).fd_table@[r.2 as int] == Some(write_end),
        forall|k: int| 0 <= k < old(p).fd_table@.len() && k != r.1 && k != r.2 ==> #[trigger] final(p).fd_table@[k] == old(p).fd_table@[k],
        r.1 < old(p).fd_table@.len() ==> old(p).fd_table@[r.1 as int] is None,
        r.2 < old(p).fd_table@.len() ==> old(p).fd_table@[r.2 as int] is None,
{
    let read_fd = p.alloc_fd();
    p.fd_table.set(read_fd, Some(read_end));
    let ghost mid = p.fd_table@;
    let write_fd = p.alloc_fd();
    p.fd_table.set(write_fd, Some(write_end));
    proof {
        if write_fd <= read_fd {
            assert(mid[write_fd as int] is Some);
        }
    }
    (0, read_fd, write_fd)
}

/// Pid of the calling thread's process.
pub fn sys_getpid(task: &TaskControlBlock) -> (r: isize)
    requires
        task.pid <= isize::MAX,
    ensures
        r == task.pid,
{
    task.pid as isize
}

/// Creating a process from a path in one step is not offered: always -1.
pub fn sys_spawn(path: &Vec<u8>) -> (r: isize)
    ensures
        r == -1,
{
    -1
}

} // verus!
