//! System calls that glue user arguments to the filesystem and the clock.
use vstd::prelude::*;
use crate::fs::{
    blocks_for, find_entry, free_count, link_effect, unlink_effect, EasyFileSystem, Inode, BLOCK_SZ,
    DIRENT_SZ, INODE_CAPACITY, NAME_LENGTH_LIMIT, ROOT_INODE,
};
use crate::task::TaskStatus;

verus! {

/// Number of system call ids that are counted.
pub const MAX_SYSCALL_NUM: usize = 500;

/// The name held in a user buffer: its bytes up to the first NUL, at most
/// `NAME_LENGTH_LIMIT` of them.
pub open spec fn name_in(raw: Seq<u8>) -> Seq<u8>
    decreases raw.len(),
{
    if raw.len() == 0 {
        Seq::empty()
    } else if raw[0] == 0 {
        Seq::empty()
    } else {
        seq![raw[0]] + name_in(raw.drop_first())
    }
}

/// The name in `raw`: bytes up to the first NUL, among the first
/// `NAME_LENGTH_LIMIT`.
pub fn read_name(raw: &[u8]) -> (r: Vec<u8>)
    ensures
        r@ == name_in(raw@.take(if raw@.len() < NAME_LENGTH_LIMIT { raw@.len() as int } else { NAME_LENGTH_LIMIT as int })),
        r@.len() <= NAME_LENGTH_LIMIT,
{
    let limit = if raw.len() < NAME_LENGTH_LIMIT {
        raw.len()
    } else {
        NAME_LENGTH_LIMIT
    };
    let ghost w = raw@.take(limit as int);
    let mut out: Vec<u8> = Vec::new();
    let mut i: usize = 0;
    proof {
        assert(w.subrange(0, limit as int) =~= w);
        assert(out@ + name_in(w) =~= name_in(w));
    }
    while i < limit && raw[i] != 0
        invariant
            i <= limit,
            limit <= raw@.len(),
            w == raw@.take(limit as int),
            out@.len() == i,
            out@ + name_in(w.subrange(i as int, limit as int)) == name_in(w),
        decreases limit - i,
    {
        proof {
            let rest = w.subrange(i as int, limit as int);
            assert(rest.drop_first() =~= w.subrange(i as int + 1, limit as int));
            assert(out@.push(raw[i as int]) + name_in(w.subrange(i as int + 1, limit as int)) =~= out@ + name_in(rest));
        }
        out.push(raw[i]);
        i += 1;
    }
    proof {
        assert(name_in(w.subrange(i as int, limit as int)) =~= Seq::<u8>::empty());
        assert(out@ + Seq::<u8>::empty() =~= out@);
    }
    out
}

/// Whether the root directory has room for one more entry: its size
/// limit, and a free block if the entry starts a new one.
pub open spec fn can_append(fs: EasyFileSystem) -> bool {
    &&& DIRENT_SZ * (fs.root().len() + 1) <= INODE_CAPACITY
    &&& blocks_for(DIRENT_SZ * (fs.root().len() + 1)) - blocks_for(DIRENT_SZ * fs.root().len())
        <= free_count(fs.data_bitmap@)
}

fn count_free(bm: &Vec<bool>) -> (r: usize)
    ensures
        r == free_count(bm@),
{
    let mut n: usize = 0;
    let mut i: usize = 0;
    while i < bm.len()
        invariant
            i <= bm@.len(),
            n == free_count(bm@.take(i as int)),
            n <= i,
        decreases bm@.len() - i,
    {
        proof {
            assert(bm@.take(i as int + 1).drop_last() =~= bm@.take(i as int));
        }
        if !bm[i] {
            n += 1;
        }
        i += 1;
    }
    proof {
        assert(bm@.take(i as int) =~= bm@);
    }
    n
}

/// Whether the root directory has room for one more entry.
pub fn can_append_entry(fs: &EasyFileSystem) -> (r: bool)
    requires
        fs.wf(),
    ensures
        r == can_append(*fs),
{
    let n = fs.inodes[ROOT_INODE as usize].entries.len();
    proof {
        assert(DIRENT_SZ * n <= INODE_CAPACITY);
    }
    if n + 1 > INODE_CAPACITY / DIRENT_SZ {
        return false;
    }
    let now = n * DIRENT_SZ;
    let next = (n + 1) * DIRENT_SZ;
    let b_now = now / BLOCK_SZ + if now % BLOCK_SZ == 0 { 0 } else { 1 };
    let b_next = next / BLOCK_SZ + if next % BLOCK_SZ == 0 { 0 } else { 1 };
    let free = count_free(&fs.data_bitmap);
    proof {
        assert(b_now == blocks_for(now as int));
        assert(b_next == blocks_for(next as int));
        assert(b_now <= b_next);
    }
    b_next - b_now <= free
}

/// Adds the name in `new_raw` for the file named in `old_raw`.  Fails
/// (-1) when the two names are the same or the first is not found.
pub fn sys_linkat(fs: &mut EasyFileSystem, old_raw: &[u8], new_raw: &[u8]) -> (r: isize)
    requires
        old(fs).wf(),
        can_append(*old(fs)),
    ensures
        final(fs).wf(),
        ({
            let old_name = name_in(old_raw@.take(if old_raw@.len() < NAME_LENGTH_LIMIT { old_raw@.len() as int } else { NAME_LENGTH_LIMIT as int }));
            let new_name = name_in(new_raw@.take(if new_raw@.len() < NAME_LENGTH_LIMIT { new_raw@.len() as int } else { NAME_LENGTH_LIMIT as int }));
            if old_name == new_name || find_entry(old(fs).root(), old_name) == -1 {
                r == -1 && *final(fs) == *old(fs)
            } else {
                r == 0 && link_effect(*old(fs), *final(fs), old_name, new_name)
            }
        }),
{
    let old_name = read_name(old_raw);
    let new_name = read_name(new_raw);
    let mut same = old_name.len() == new_name.len();
    let mut i: usize = 0;
    while same && i < old_name.len()
        invariant
            i <= old_name@.len(),
            same ==> old_name@.len() == new_name@.len(),
            same ==> forall|k: int| 0 <= k < i ==> old_name@[k] == new_name@[k],
            !same ==> old_name@ != new_name@,
        decreases old_name@.len() - i,
    {
        if old_name[i] != new_name[i] {
            same = false;
        }
        i += 1;
    }
    if same {
        proof {
            assert(old_name@ =~= new_name@);
        }
        return -1;
    }
    let root = Inode::new(ROOT_INODE);
    match root.insert_link_entry(fs, old_name.as_slice(), new_name.as_slice()) {
        Some(_) => 0,
        None => -1,
    }
}

/// Removes the name in `raw` from the root directory; -1 when it is not there.
pub fn sys_unlinkat(fs: &mut EasyFileSystem, raw: &[u8]) -> (r: isize)
    requires
        old(fs).wf(),
    ensures
        final(fs).wf(),
        ({
            let name = name_in(raw@.take(if raw@.len() < NAME_LENGTH_LIMIT { raw@.len() as int } else { NAME_LENGTH_LIMIT as int }));
            &&& find_entry(old(fs).root(), name) == -1 ==> r == -1 && *final(fs) == *old(fs)
            &&& find_entry(old(fs).root(), name) >= 0 ==> r == 0 && unlink_effect(*old(fs), *final(fs), name)
        }),
{
    let name = read_name(raw);
    let root = Inode::new(ROOT_INODE);
    root.remove_link_entry(fs, name.as_slice())
}

/// What `exec` returns before it replaces the address space: -1 when
/// the program `path` is not a file of the root directory, else the number
/// of arguments, which the new program finds in its first register.
pub fn sys_exec(fs: &EasyFileSystem, path: &[u8], args: &Vec<Vec<u8>>) -> (r: isize)
    requires
        fs.wf(),
        args@.len() <= isize::MAX,
    ensures
        find_entry(fs.root(), path@) == -1 ==> r == -1,
        find_entry(fs.root(), path@) >= 0 ==> r == args@.len(),
{
    let root = Inode::new(ROOT_INODE);
    match root.find(fs, path) {
        Some(_) => args.len() as isize,
        None => -1,
    }
}

/// Seconds and microseconds.
#[derive(PartialEq, Eq, Structural, Debug, Clone, Copy)]
pub struct TimeVal {
    pub sec: usize,
    pub usec: usize,
}

/// The time `ms` milliseconds as seconds and microseconds.
pub fn sys_get_time(ms: usize) -> (t: TimeVal)
    ensures
        t.sec == ms / 1000,
        t.usec == (ms as int * 1000) % 1_000_000,
{
    let usec = (ms % 1000) * 1000;
    proof {
        let m = ms as int;
        assert((m % 1000) * 1000 == (m * 1000) % 1_000_000) by (nonlinear_arith)
            requires
                m >= 0,
        ;
    }
    TimeVal { sec: ms / 1000, usec }
}

/// How often a thread made each system call, by call id.
pub struct SyscallCounter {
    pub counts: Vec<u32>,
}

impl SyscallCounter {
    /// No call counted.
    pub fn new() -> (c: Self)
        ensures
            c.counts@ == Seq::new(MAX_SYSCALL_NUM as nat, |i: int| 0u32),
    {
        let mut counts: Vec<u32> = Vec::new();
        let mut i: usize = 0;
        while i < MAX_SYSCALL_NUM
            invariant
                i <= MAX_SYSCALL_NUM,
                counts@ == Seq::new(i as nat, |k: int| 0u32),
            decreases MAX_SYSCALL_NUM - i,
        {
            counts.push(0);
            i += 1;
            proof {
                assert(counts@ =~= Seq::new(i as nat, |k: int| 0u32));
            }
        }
        SyscallCounter { counts }
    }

    /// Counts one call of `call_id`; ids past the table and counts at
    /// their top are left as they are.
    pub fn record_syscall(&mut self, call_id: usize)
        ensures
            final(self).counts@.len() == old(self).counts@.len(),
            (call_id < old(self).counts@.len() && old(self).counts@[call_id as int] < u32::MAX) ==> final(self).counts@
                == old(self).counts@.update(call_id as int, (old(self).counts@[call_id as int] + 1) as u32),
            (call_id >= old(self).counts@.len() || old(self).counts@[call_id as int] == u32::MAX) ==> final(self).counts@
                == old(self).counts@,
    {
        if call_id < self.counts.len() && self.counts[call_id] < u32::MAX {
            let c = self.counts[call_id];
            self.counts.set(call_id, c + 1);
        }
    }
}

/// What `task_info` reports of the calling thread.
pub struct TaskInfo {
    pub status: TaskStatus,
    pub syscall_times: Vec<u32>,
    /// Milliseconds since the thread first ran.
    pub time: usize,
}

/// The report for a thread in `status`, with its call counts, first run
/// at `start_ms`, at time `now_ms`.
pub fn sys_task_info(status: TaskStatus, counter: &SyscallCounter, start_ms: usize, now_ms: usize) -> (info: TaskInfo)
    requires
        start_ms <= now_ms,
    ensures
        info.status == status,
        info.syscall_times@ == counter.counts@,
        info.time == now_ms - start_ms,
{
    let mut times: Vec<u32> = Vec::new();
    let mut i: usize = 0;
    while i < counter.counts.len()
        invariant
            i <= counter.counts@.len(),
            times@ == counter.counts@.subrange(0, i as int),
        decreases counter.counts@.len() - i,
    {
        times.push(counter.counts[i]);
        i += 1;
        proof {
            assert(times@ =~= counter.counts@.subrange(0, i as int));
        }
    }
    proof {
        assert(times@ =~= counter.counts@);
    }
    TaskInfo { status, syscall_times: times, time: now_ms - start_ms }
}

} // verus!
